//! Laws of the structural index, stated over the bytes of the record (see `syntax`).
use vstd::prelude::*;
use crate::bit::{bit, lemma_bits_determine, group_bit};
use super::{
    Bitmap, gbit, lemma_gbit, backslash_words, quote_words, colon_words,
    comma_words, left_brace_words, right_brace_words, left_bracket_words, right_bracket_words, COLON,
    COMMA,
};
use super::{is_char, is_char_bitmap, BACKSLASH, QUOTE};
use super::syntax::{
    how_many, byte_at, backslash_run, delimits, delimiters, inside_string, structural_at, opening,
    closing, level_at, matches_open, closes_own_kind, well_formed, first_bad_close,
};
use super::builder::refusal;
use crate::errors::{Error, ErrorKind};
use super::structure::{NestError, structural_quotes, run_before, Brackets, nesting, nest_step, opens_of, lemma_nesting_err, 
    is_index_of, balanced, depth, structural, record_brackets, record_nesting, record_ok, levels_of,
    opens_at, closes_at, closes_of, count_before, word_count, lemma_since, lemma_nesting_shape, lemma_level_free,
};

verus! {

broadcast use group_bit;

/// On a record whose braces and brackets all close in order, level `k` of the leveled
/// bitmaps holds exactly the structural colons and commas that stand at most `k + 1`
/// braces or brackets deep.
pub proof fn law_levels_by_depth(
    bitmaps: Seq<Bitmap>,
    b_colon: Seq<Seq<u64>>,
    b_comma: Seq<Seq<u64>>,
    s: Seq<u8>,
    level: int,
    k: int,
    p: int,
)
    requires
        is_index_of(bitmaps, b_colon, b_comma, s, level),
        balanced(s),
        0 <= k < level,
    ensures
        gbit(b_colon[k], p) == (structural(s, COLON)(p) && depth(record_brackets(s), p) <= k + 1),
        gbit(b_comma[k], p) == (structural(s, COMMA)(p) && depth(record_brackets(s), p) <= k + 1),
        gbit(b_colon[k], p) == (structural_at(s, p, 0x3au8) && level_at(s, p) <= k + 1),
        gbit(b_comma[k], p) == (structural_at(s, p, 0x2cu8) && level_at(s, p) <= k + 1),
{
    lemma_brackets_are_syntax(s);
    lemma_model_is_syntax(s);
    assert(structural(s, COLON)(p) == structural_at(s, p, 0x3au8));
    assert(structural(s, COMMA)(p) == structural_at(s, p, 0x2cu8));
    assert(depth(record_brackets(s), p) == level_at(s, p));
    let br = record_brackets(s);
    let removed = record_nesting(s, level)->Ok_0.removed;
    assert(levels_of(b_colon, structural(s, COLON), bitmaps.len() as int, removed, level));
    assert(levels_of(b_comma, structural(s, COMMA), bitmaps.len() as int, removed, level));
    assert(gbit(b_colon[k], p) == (structural(s, COLON)(p) && !removed.contains((k, p))));
    assert(gbit(b_comma[k], p) == (structural(s, COMMA)(p) && !removed.contains((k, p))));
    if structural(s, COLON)(p) || structural(s, COMMA)(p) {
        assert(!opens_at(br, p) && !closes_at(br, p));
        lemma_level_free(br, level, 0, 2 * (s.len() as int));
        let m = lemma_since(br, level, p, 2 * (s.len() as int));
        lemma_nesting_shape(br, level, 2 * p + 1);
        assert((2 * p + 1) / 2 == p && (2 * p + 2) / 2 == p + 1);
        assert(m == 0);
        assert(count_before(closes_of(br), p + 1) == count_before(closes_of(br), p));
        assert(removed.contains((k, p)) <==> k + 2 <= depth(br, p));
    }
}

/// On a record whose braces and brackets all close in order, each level of the leveled
/// bitmaps holds every colon and comma of the level below it.
pub proof fn law_levels_grow(
    bitmaps: Seq<Bitmap>,
    b_colon: Seq<Seq<u64>>,
    b_comma: Seq<Seq<u64>>,
    s: Seq<u8>,
    level: int,
    k: int,
    p: int,
)
    requires
        is_index_of(bitmaps, b_colon, b_comma, s, level),
        balanced(s),
        0 <= k,
        k + 1 < level,
    ensures
        gbit(b_colon[k], p) ==> gbit(b_colon[k + 1], p),
        gbit(b_comma[k], p) ==> gbit(b_comma[k + 1], p),
{
    law_levels_by_depth(bitmaps, b_colon, b_comma, s, level, k, p);
    law_levels_by_depth(bitmaps, b_colon, b_comma, s, level, k + 1, p);
}

/// Whether a record is accepted does not depend on the number of levels.
pub proof fn law_ok_level_free(s: Seq<u8>, l1: int, l2: int)
    ensures
        record_ok(s, l1) == record_ok(s, l2),
{
    lemma_level_free(record_brackets(s), l1, l2, 2 * (s.len() as int));
}

/// Two words that hold the same positions are equal.
proof fn lemma_word_eq(ws1: Seq<u64>, ws2: Seq<u64>, w: int)
    requires
        ws1.len() == ws2.len(),
        0 <= w < ws1.len(),
        forall|p: int| #[trigger] gbit(ws1, p) == gbit(ws2, p),
    ensures
        ws1[w] == ws2[w],
{
    assert forall|b: int| 0 <= b < 64 implies #[trigger] bit(ws1[w], b) == bit(ws2[w], b) by {
        lemma_gbit(ws1, w, b);
        lemma_gbit(ws2, w, b);
    }
    lemma_bits_determine(ws1[w], ws2[w]);
}

/// Two rows of words that hold the same positions are equal.
proof fn lemma_rows_eq(r1: Seq<Seq<u64>>, r2: Seq<Seq<u64>>, f: spec_fn(int) -> bool, n: int, removed: Set<(int, int)>, level: int)
    requires
        levels_of(r1, f, n, removed, level),
        levels_of(r2, f, n, removed, level),
    ensures
        r1 == r2,
{
    assert forall|k: int| 0 <= k < level implies #[trigger] r1[k] == r2[k] by {
        assert forall|p: int| #[trigger] gbit(r1[k], p) == gbit(r2[k], p) by {}
        assert forall|w: int| 0 <= w < n implies #[trigger] r1[k][w] == r2[k][w] by {
            lemma_word_eq(r1[k], r2[k], w);
        }
        assert(r1[k] =~= r2[k]);
    }
    assert(r1 =~= r2);
}

/// The structural index of a record is determined by the record and the number of levels:
/// building it again, with the same builder or another one, gives the same index.
pub proof fn law_index_unique(
    bitmaps1: Seq<Bitmap>,
    b_colon1: Seq<Seq<u64>>,
    b_comma1: Seq<Seq<u64>>,
    bitmaps2: Seq<Bitmap>,
    b_colon2: Seq<Seq<u64>>,
    b_comma2: Seq<Seq<u64>>,
    s: Seq<u8>,
    level: int,
)
    requires
        is_index_of(bitmaps1, b_colon1, b_comma1, s, level),
        is_index_of(bitmaps2, b_colon2, b_comma2, s, level),
    ensures
        bitmaps1 == bitmaps2,
        b_colon1 == b_colon2,
        b_comma1 == b_comma2,
{
    let n = word_count(s.len() as int);
    assert forall|w: int| 0 <= w < n implies #[trigger] bitmaps1[w] == bitmaps2[w] by {
        lemma_word_eq(backslash_words(bitmaps1), backslash_words(bitmaps2), w);
        lemma_word_eq(quote_words(bitmaps1), quote_words(bitmaps2), w);
        lemma_word_eq(colon_words(bitmaps1), colon_words(bitmaps2), w);
        lemma_word_eq(comma_words(bitmaps1), comma_words(bitmaps2), w);
        lemma_word_eq(left_brace_words(bitmaps1), left_brace_words(bitmaps2), w);
        lemma_word_eq(right_brace_words(bitmaps1), right_brace_words(bitmaps2), w);
        lemma_word_eq(left_bracket_words(bitmaps1), left_bracket_words(bitmaps2), w);
        lemma_word_eq(right_bracket_words(bitmaps1), right_bracket_words(bitmaps2), w);
    }
    assert(bitmaps1 =~= bitmaps2);
    let removed = record_nesting(s, level)->Ok_0.removed;
    lemma_rows_eq(b_colon1, b_colon2, structural(s, COLON), n, removed, level);
    lemma_rows_eq(b_comma1, b_comma2, structural(s, COMMA), n, removed, level);
}

/// The counts of the model and of the byte-level description agree.
proof fn lemma_count_is_how_many(f: spec_fn(int) -> bool, p: int)
    ensures
        count_before(f, p) == how_many(f, p),
    decreases p,
{
    reveal(Seq::filter);
    if p > 0 {
        lemma_count_is_how_many(f, p - 1);
        let sq = Seq::new(p as nat, |q: int| q);
        assert(sq.drop_last() =~= Seq::new((p - 1) as nat, |q: int| q));
        assert(sq.last() == p - 1);
        assert(sq.filter(f) == if f(p - 1) {
            sq.drop_last().filter(f).push(p - 1)
        } else {
            sq.drop_last().filter(f)
        });
        if p == 1 {
            assert(Seq::new(0nat, |q: int| q).filter(f).len() == 0);
        }
    }
}

/// The run of backslashes that the model counts is the byte-level run before `p`.
proof fn lemma_run_is_backslash_run(s: Seq<u8>, p: int)
    requires
        0 <= p <= s.len(),
    ensures
        backslash_run(s, p, run_before(is_char(s, BACKSLASH), p) as int),
    decreases p,
{
    if p > 0 && is_char(s, BACKSLASH)(p - 1) {
        lemma_run_is_backslash_run(s, p - 1);
    }
}

/// Only one run of backslashes stands before a position.
proof fn lemma_backslash_run_unique(s: Seq<u8>, p: int, k1: int, k2: int)
    requires
        backslash_run(s, p, k1),
        backslash_run(s, p, k2),
    ensures
        k1 == k2,
{
    if k1 < k2 {
        assert(s[p - k1 - 1] == 0x5cu8);
    } else if k2 < k1 {
        assert(s[p - k2 - 1] == 0x5cu8);
    }
}

/// The model's quotes, strings and structural characters are those of the byte-level
/// description.
proof fn lemma_model_is_syntax(s: Seq<u8>)
    ensures
        structural_quotes(s) == delimiters(s),
        forall|p: int| #[trigger] count_before(structural_quotes(s), p) == how_many(delimiters(s), p),
        forall|c: u8, p: int| #[trigger] structural(s, c)(p) == structural_at(s, p, c),
{
    assert forall|p: int| #[trigger] structural_quotes(s)(p) == delimits(s, p) by {
        if 0 <= p < s.len() {
            lemma_run_is_backslash_run(s, p);
            let r = run_before(is_char(s, BACKSLASH), p) as int;
            assert forall|k: int| #[trigger] backslash_run(s, p, k) implies k == r by {
                lemma_backslash_run_unique(s, p, k, r);
            }
        }
    }
    assert(structural_quotes(s) =~= delimiters(s));
    assert forall|p: int| #[trigger] count_before(structural_quotes(s), p) == how_many(delimiters(s), p) by {
        lemma_count_is_how_many(delimiters(s), p);
    }
}

/// The character bitmaps of a word mark exactly the bytes that are those characters; in
/// particular no byte outside ASCII is ever marked.
pub proof fn law_char_bitmap(bm: Bitmap, s: Seq<u8>, off: int, b: int)
    requires
        is_char_bitmap(bm, s, off),
        0 <= off,
        0 <= b < 64,
    ensures
        bit(bm.backslash, b) == byte_at(s, off + b, 0x5cu8),
        bit(bm.quote, b) == byte_at(s, off + b, 0x22u8),
        bit(bm.colon, b) == byte_at(s, off + b, 0x3au8),
        bit(bm.comma, b) == byte_at(s, off + b, 0x2cu8),
        bit(bm.left_brace, b) == byte_at(s, off + b, 0x7bu8),
        bit(bm.right_brace, b) == byte_at(s, off + b, 0x7du8),
        bit(bm.left_bracket, b) == byte_at(s, off + b, 0x5bu8),
        bit(bm.right_bracket, b) == byte_at(s, off + b, 0x5du8),
        off + b < s.len() && s[off + b] >= 0x80 ==> !bit(bm.backslash, b) && !bit(bm.quote, b)
            && !bit(bm.colon, b) && !bit(bm.comma, b) && !bit(bm.left_brace, b) && !bit(
            bm.right_brace,
            b,
        ) && !bit(bm.left_bracket, b) && !bit(bm.right_bracket, b),
{
}

/// The character bitmaps of an index mark the backslashes of the record, the quotes that
/// delimit strings (those after an even run of backslashes), and the colons, commas,
/// braces and brackets that stand outside strings; there is one word per 64 bytes of the
/// record, and one row of that many words per level.
pub proof fn law_index_bytes(
    bitmaps: Seq<Bitmap>,
    b_colon: Seq<Seq<u64>>,
    b_comma: Seq<Seq<u64>>,
    s: Seq<u8>,
    level: int,
    p: int,
)
    requires
        is_index_of(bitmaps, b_colon, b_comma, s, level),
    ensures
        gbit(backslash_words(bitmaps), p) == byte_at(s, p, 0x5cu8),
        gbit(quote_words(bitmaps), p) == delimits(s, p),
        gbit(colon_words(bitmaps), p) == structural_at(s, p, 0x3au8),
        gbit(comma_words(bitmaps), p) == structural_at(s, p, 0x2cu8),
        gbit(left_brace_words(bitmaps), p) == structural_at(s, p, 0x7bu8),
        gbit(right_brace_words(bitmaps), p) == structural_at(s, p, 0x7du8),
        gbit(left_bracket_words(bitmaps), p) == structural_at(s, p, 0x5bu8),
        gbit(right_bracket_words(bitmaps), p) == structural_at(s, p, 0x5du8),
        s.len() <= 64 * bitmaps.len() < s.len() + 64,
        b_colon.len() == level && b_comma.len() == level,
        forall|k: int|
            0 <= k < level ==> (#[trigger] b_colon[k]).len() == bitmaps.len() && b_comma[k].len()
                == bitmaps.len(),
{
    lemma_model_is_syntax(s);
    assert(structural_quotes(s)(p) == delimits(s, p));
    assert(structural(s, COLON)(p) == structural_at(s, p, 0x3au8));
    assert(structural(s, COMMA)(p) == structural_at(s, p, 0x2cu8));
    assert(structural(s, 0x7bu8)(p) == structural_at(s, p, 0x7bu8));
    assert(structural(s, 0x7du8)(p) == structural_at(s, p, 0x7du8));
    assert(structural(s, 0x5bu8)(p) == structural_at(s, p, 0x5bu8));
    assert(structural(s, 0x5du8)(p) == structural_at(s, p, 0x5du8));
}

/// Whether the open frame `f`, at index `k` of the stack before event `e`, is the last
/// brace or bracket opened at depth `k` before `e`.
spec fn frame_ok(br: Brackets, f: (int, bool), k: int, e: int) -> bool {
    &&& 0 <= f.0
    &&& 2 * f.0 + 1 < e
    &&& opens_at(br, f.0)
    &&& depth(br, f.0) == k
    &&& f.1 == (br.left_brace)(f.0)
    &&& forall|r: int| f.0 < r && 2 * r + 1 < e && #[trigger] opens_at(br, r) ==> depth(br, r) != k
}

/// Where nothing both opens and closes, each open frame is the last brace or bracket
/// opened at its depth.
proof fn lemma_frames(br: Brackets, level: int, e: int)
    requires
        e >= 0,
        forall|r: int| !(#[trigger] opens_at(br, r) && closes_at(br, r)),
        nesting(br, level, e) is Ok,
    ensures
        forall|k: int|
            0 <= k < nesting(br, level, e)->Ok_0.open.len() ==> frame_ok(
                br,
                #[trigger] nesting(br, level, e)->Ok_0.open[k],
                k,
                e,
            ),
    decreases e,
{
    if e > 0 {
        let prev = nesting(br, level, e - 1);
        assert(prev is Ok);
        lemma_frames(br, level, e - 1);
        let st = prev->Ok_0;
        let cur = nesting(br, level, e)->Ok_0;
        let q = (e - 1) / 2;
        if (e - 1) % 2 == 0 {
            if closes_at(br, q) {
                assert(cur.open =~= st.open.drop_last());
            }
            assert forall|k: int| 0 <= k < cur.open.len() implies frame_ok(
                br,
                #[trigger] cur.open[k],
                k,
                e,
            ) by {
                assert(cur.open[k] == st.open[k]);
                assert(frame_ok(br, st.open[k], k, e - 1));
            }
        } else if opens_at(br, q) {
            lemma_nesting_shape(br, level, e - 1);
            assert(e - 1 == 2 * q + 1 && (e - 1) / 2 == q && e / 2 == q + 1);
            assert(count_before(closes_of(br), q + 1) == count_before(closes_of(br), q));
            assert(depth(br, q) == st.open.len());
            assert forall|k: int| 0 <= k < cur.open.len() implies frame_ok(
                br,
                #[trigger] cur.open[k],
                k,
                e,
            ) by {
                if k < st.open.len() {
                    assert(cur.open[k] == st.open[k]);
                    assert(frame_ok(br, st.open[k], k, e - 1));
                }
            }
        } else {
            assert forall|k: int| 0 <= k < cur.open.len() implies frame_ok(
                br,
                #[trigger] cur.open[k],
                k,
                e,
            ) by {
                assert(frame_ok(br, st.open[k], k, e - 1));
            }
        }
    }
}

/// The braces and brackets the model reads from a record, and their depths, are those of
/// the byte-level description.
proof fn lemma_brackets_are_syntax(s: Seq<u8>)
    ensures
        forall|p: int| #[trigger] opens_at(record_brackets(s), p) == opening(s, p),
        forall|p: int| #[trigger] closes_at(record_brackets(s), p) == closing(s, p),
        forall|p: int|
            #[trigger] (record_brackets(s).left_brace)(p) == structural_at(s, p, 0x7bu8),
        forall|p: int|
            #[trigger] (record_brackets(s).right_brace)(p) == structural_at(s, p, 0x7du8),
        forall|p: int| #[trigger] depth(record_brackets(s), p) == level_at(s, p),
        forall|r: int|
            !(#[trigger] opens_at(record_brackets(s), r) && closes_at(record_brackets(s), r)),
{
    let br = record_brackets(s);
    lemma_model_is_syntax(s);
    assert forall|p: int| #[trigger] opens_at(br, p) == opening(s, p) by {
        assert(structural(s, 0x7bu8)(p) == structural_at(s, p, 0x7bu8));
        assert(structural(s, 0x5bu8)(p) == structural_at(s, p, 0x5bu8));
    }
    assert forall|p: int| #[trigger] closes_at(br, p) == closing(s, p) by {
        assert(structural(s, 0x7du8)(p) == structural_at(s, p, 0x7du8));
        assert(structural(s, 0x5du8)(p) == structural_at(s, p, 0x5du8));
    }
    assert forall|p: int| #[trigger] (br.left_brace)(p) == structural_at(s, p, 0x7bu8) by {
        assert(structural(s, 0x7bu8)(p) == structural_at(s, p, 0x7bu8));
    }
    assert forall|p: int| #[trigger] (br.right_brace)(p) == structural_at(s, p, 0x7du8) by {
        assert(structural(s, 0x7du8)(p) == structural_at(s, p, 0x7du8));
    }
    assert(opens_of(br) =~= |q: int| opening(s, q));
    assert(closes_of(br) =~= |q: int| closing(s, q));
    assert forall|p: int| #[trigger] depth(br, p) == level_at(s, p) by {
        lemma_count_is_how_many(|q: int| opening(s, q), p);
        lemma_count_is_how_many(|q: int| closing(s, q), p);
    }
}

/// Where what closes at `p` finds the nesting before it well formed, the innermost open
/// frame is the one it closes.
proof fn lemma_top_matches(s: Seq<u8>, level: int, p: int)
    requires
        0 <= p,
        closing(s, p),
        nesting(record_brackets(s), level, 2 * p) is Ok,
        nesting(record_brackets(s), level, 2 * p)->Ok_0.open.len() > 0,
    ensures
        ({
            let open = nesting(record_brackets(s), level, 2 * p)->Ok_0.open;
            &&& open.len() == level_at(s, p)
            &&& matches_open(s, p, open.last().0)
            &&& open.last().1 == structural_at(s, open.last().0, 0x7bu8)
            &&& forall|q: int| #[trigger] matches_open(s, p, q) ==> q == open.last().0
        }),
{
    let br = record_brackets(s);
    lemma_brackets_are_syntax(s);
    lemma_nesting_shape(br, level, 2 * p);
    assert((2 * p) / 2 == p && (2 * p + 1) / 2 == p);
    lemma_frames(br, level, 2 * p);
    let open = nesting(br, level, 2 * p)->Ok_0.open;
    let k = open.len() - 1;
    assert(frame_ok(br, open[k], k, 2 * p));
    assert(open.last() == open[k]);
    let qt = open.last().0;
    assert(open.len() == depth(br, p));
    assert(depth(br, qt) == level_at(s, qt));
    assert forall|r: int| qt < r < p && #[trigger] opening(s, r) implies level_at(s, r) != level_at(s, p) - 1 by {
        assert(opens_at(br, r));
        assert(depth(br, r) == level_at(s, r));
    }
    assert forall|q: int| #[trigger] matches_open(s, p, q) implies q == qt by {
        if q < qt {
            assert(opening(s, qt));
        } else if qt < q {
            assert(opens_at(br, q));
            assert(depth(br, q) == level_at(s, q));
        }
    }
}

/// A record is accepted exactly when it is well formed: its delimiting quotes pair up, and
/// every brace and bracket that closes outside strings closes the last one opened at the
/// depth below, and one of its own kind. Whether it is accepted does not depend on the
/// number of levels.
pub proof fn law_acceptance(s: Seq<u8>, level: int)
    ensures
        record_ok(s, level) == well_formed(s),
{
    let br = record_brackets(s);
    let n = 2 * (s.len() as int);
    lemma_model_is_syntax(s);
    lemma_brackets_are_syntax(s);
    if record_ok(s, level) {
        assert forall|p: int| #[trigger] closing(s, p) implies closes_own_kind(s, p) by {
            assert(0 <= p < s.len());
            if nesting(br, level, 2 * p + 1) is Err {
                lemma_nesting_err(br, level, 2 * p + 1, n);
            }
            assert(nesting(br, level, 2 * p) is Ok);
            let st = nesting(br, level, 2 * p)->Ok_0;
            assert((2 * p) / 2 == p && (2 * p) % 2 == 0);
            assert(nesting(br, level, 2 * p + 1) == nest_step(br, level, st, 2 * p));
            assert(closes_at(br, p));
            lemma_top_matches(s, level, p);
            let qt = st.open.last().0;
            assert(matches_open(s, p, qt) && (s[qt] == 0x7bu8 <==> s[p] == 0x7du8));
        }
    }
    if well_formed(s) {
        assert forall|p: int| closing(s, p) && 2 * p < n implies #[trigger] closes_own_kind(s, p) by {}
        lemma_ok_upto(s, level, n);
    }
}

/// While every brace and bracket read so far closes one of its own kind, the nesting does
/// not fail.
proof fn lemma_ok_upto(s: Seq<u8>, level: int, e: int)
    requires
        forall|p: int| closing(s, p) && 2 * p < e ==> #[trigger] closes_own_kind(s, p),
        0 <= e,
    ensures
        nesting(record_brackets(s), level, e) is Ok,
    decreases e,
{
    let br = record_brackets(s);
    if e > 0 {
        lemma_ok_upto(s, level, e - 1);
        lemma_brackets_are_syntax(s);
        let st = nesting(br, level, e - 1)->Ok_0;
        let p = (e - 1) / 2;
        if (e - 1) % 2 == 0 && closes_at(br, p) {
            assert(e - 1 == 2 * p);
            assert(closing(s, p));
            assert(closes_own_kind(s, p));
            lemma_nesting_shape(br, level, 2 * p);
            assert((2 * p) / 2 == p && (2 * p + 1) / 2 == p);
            assert(st.open.len() == depth(br, p));
            lemma_top_matches(s, level, p);
            let q = choose|q: int| #[trigger] matches_open(s, p, q) && (s[q] == 0x7bu8 <==> s[p]
                == 0x7du8);
            assert(q == st.open.last().0);
        }
    }
}

/// A record's braces and brackets all close, in order and each by its own kind, with its
/// quotes paired, exactly when it is well formed and nothing is left open at its end.
pub proof fn law_balanced(s: Seq<u8>)
    ensures
        (balanced(s) && how_many(delimiters(s), s.len() as int) % 2 == 0) == (well_formed(s)
            && level_at(s, s.len() as int) == 0),
{
    let br = record_brackets(s);
    let n = 2 * (s.len() as int);
    law_acceptance(s, 0);
    lemma_model_is_syntax(s);
    lemma_brackets_are_syntax(s);
    assert(count_before(structural_quotes(s), s.len() as int) == how_many(delimiters(s), s.len() as int));
    if record_nesting(s, 0) is Ok {
        lemma_nesting_shape(br, 0, n);
        assert(n / 2 == s.len() && (n + 1) / 2 == s.len());
        assert(depth(br, s.len() as int) == level_at(s, s.len() as int));
    }
}

/// A record whose quotes do not pair up is refused as an invalid record, chained onto
/// nothing.
pub proof fn law_refusal_quotes(s: Seq<u8>, level: int, e: Error)
    requires
        refusal(e, s, level),
        how_many(delimiters(s), s.len() as int) % 2 == 1,
    ensures
        e.spec_kind() == ErrorKind::InvalidRecord,
        e.spec_cause() == None::<ErrorKind>,
{
    lemma_model_is_syntax(s);
    assert(count_before(structural_quotes(s), s.len() as int) == how_many(delimiters(s), s.len() as int));
}

/// A record whose quotes pair up but whose braces and brackets do not close in order is
/// refused for its first wrong close: with the message `s.pop()` when nothing is open there,
/// and `invalid bracket/brace` when it closes the other kind, each chained onto an invalid
/// record.
pub proof fn law_refusal_reason(s: Seq<u8>, level: int, e: Error, p: int)
    requires
        refusal(e, s, level),
        how_many(delimiters(s), s.len() as int) % 2 == 0,
        first_bad_close(s, p),
    ensures
        e.spec_cause() == Some(ErrorKind::InvalidRecord),
        level_at(s, p) < 1 ==> (e.spec_kind() matches ErrorKind::Msg(m) && m@ == "s.pop()"@),
        level_at(s, p) >= 1 ==> (e.spec_kind() matches ErrorKind::Msg(m) && m@
            == "invalid bracket/brace"@),
{
    let br = record_brackets(s);
    let n = 2 * (s.len() as int);
    lemma_model_is_syntax(s);
    lemma_brackets_are_syntax(s);
    assert(count_before(structural_quotes(s), s.len() as int) == how_many(delimiters(s), s.len() as int));
    assert(0 <= p < s.len());
    assert forall|r: int| closing(s, r) && 2 * r < 2 * p implies #[trigger] closes_own_kind(s, r) by {}
    lemma_ok_upto(s, level, 2 * p);
    let st = nesting(br, level, 2 * p)->Ok_0;
    assert((2 * p) / 2 == p && (2 * p) % 2 == 0 && (2 * p + 1) / 2 == p);
    assert(nesting(br, level, 2 * p + 1) == nest_step(br, level, st, 2 * p));
    assert(closes_at(br, p));
    lemma_nesting_shape(br, level, 2 * p);
    assert(st.open.len() == depth(br, p));
    if st.open.len() == 0 {
        assert(nesting(br, level, 2 * p + 1) == Err::<super::structure::Nest, NestError>(NestError::Unopened));
    } else {
        lemma_top_matches(s, level, p);
        let qt = st.open.last().0;
        assert(matches_open(s, p, qt));
        assert(!(s[qt] == 0x7bu8 <==> s[p] == 0x7du8));
        assert(nesting(br, level, 2 * p + 1) == Err::<super::structure::Nest, NestError>(NestError::Mismatched));
    }
    lemma_nesting_err(br, level, 2 * p + 1, n);
}

} // verus!

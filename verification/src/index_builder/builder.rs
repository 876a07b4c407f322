//! The builder of structural indices.
use vstd::prelude::*;
use vstd::string::StringSliceAdditionalSpecFns;
use crate::bit::{
    bit, lowest, lemma_lowest, lemma_bit_single, lemma_bit_shift, lemma_clear_smaller,
    lemma_single_leading_zeros, lemma_bit_span, lemma_bit_test, lemma_single_order, E, R, S,
    leading_ones,
};
use crate::errors::{Error, ErrorKind, unopened_message, mismatch_message};
use crate::parity::{is_odd, is_even};
use super::backend::Backend;
use super::lemmas::{
    lemma_run_before_agree, lemma_run_in_word, lemma_wrap_add, lemma_mod_parity, lemma_wrap_inc,
    lemma_count_skip, lemma_char_streams,
};
use super::index::StructuralIndex;
use super::structure::{
    Nest, NestError, run_before, count_before, in_string, nesting, nest_step, nest_event, opens_at, closes_at,
    leveled, lemma_nesting_err, brackets_of, record_brackets, record_nesting, record_ok,
    structural, structural_quotes, is_index_of, levels_of, word_count, lemma_nesting_skip,
};
use super::{
    Bitmap, gbit, stream, lemma_gbit, lemma_split, is_char_bitmap, backslash_words, quote_words,
    colon_words, comma_words, left_brace_words, right_brace_words, left_bracket_words, right_bracket_words, is_char,
    BACKSLASH, COLON, COMMA, LEFT_BRACE, RIGHT_BRACE, LEFT_BRACKET, RIGHT_BRACKET,
};

verus! {

broadcast use crate::bit::group_bit;

/// A index builder
#[derive(Debug, Default)]
pub struct IndexBuilder<B: Backend> {
    backend: B,
    inner: Inner,
}

/// The bitmaps of the last record built: its character bitmaps, one per word of 64 bytes,
/// and for each of `level` levels its colon and comma bitmaps.
#[derive(Debug, Default)]
pub(crate) struct Inner {
    pub(crate) bitmaps: Vec<Bitmap>,
    pub(crate) b_colon: Vec<Vec<u64>>,
    pub(crate) b_comma: Vec<Vec<u64>>,
    pub(crate) level: usize,
}

impl<B: Backend> IndexBuilder<B> {
    /// The number of levels this builder indexes.
    pub closed spec fn spec_level(&self) -> nat {
        self.inner.level as nat
    }

    /// The backend this builder reads records with.
    pub closed spec fn spec_backend(&self) -> B {
        self.backend
    }

    /// The character bitmaps of the last record built.
    pub closed spec fn spec_bitmaps(&self) -> Seq<Bitmap> {
        self.inner.bitmaps@
    }

    /// The colon bitmaps of each level of the last record built.
    pub closed spec fn spec_b_colon(&self) -> Seq<Seq<u64>> {
        rows(self.inner.b_colon@)
    }

    /// The comma bitmaps of each level of the last record built.
    pub closed spec fn spec_b_comma(&self) -> Seq<Seq<u64>> {
        rows(self.inner.b_comma@)
    }

    /// Whether the builder's state is ready for `build`.
    pub closed spec fn wf(&self) -> bool {
        self.inner.wf()
    }

    #[allow(missing_docs)]
    pub fn new(backend: B, level: usize) -> (r: Self)
        ensures
            r.spec_level() == level,
            r.wf(),
            r.spec_backend() == backend,
            r.spec_bitmaps() == Seq::<Bitmap>::empty(),
            r.spec_b_colon() == Seq::new(level as nat, |k: int| Seq::<u64>::empty()),
            r.spec_b_comma() == Seq::new(level as nat, |k: int| Seq::<u64>::empty()),
    {
        let r = Self { backend, inner: Inner::new(level) };
        proof {
            assert forall|k: int| 0 <= k < level implies #[trigger] r.spec_b_colon()[k] =~= Seq::<
                u64,
            >::empty() && r.spec_b_comma()[k] =~= Seq::<u64>::empty() by {
                assert(r.inner.b_colon@[k]@.len() == 0);
                assert(r.inner.b_comma@[k]@.len() == 0);
            }
            assert(r.spec_b_colon() =~= Seq::new(level as nat, |k: int| Seq::<u64>::empty()));
            assert(r.spec_b_comma() =~= Seq::new(level as nat, |k: int| Seq::<u64>::empty()));
        }
        r
    }

    /// Build a structural index from a slice of bytes.
    pub fn build<'a, 's>(&'a mut self, record: &'s str) -> (r: Result<
        StructuralIndex<'a, 's>,
        Error,
    >)
        requires
            old(self).wf(),
        ensures
            final(self).wf(),
            final(self).spec_level() == old(self).spec_level(),
            final(self).spec_backend() == old(self).spec_backend(),
            r is Ok <==> record_ok(record.spec_bytes(), old(self).spec_level() as int),
            r matches Err(e) ==> refusal(e, record.spec_bytes(), old(self).spec_level() as int),
            r matches Ok(idx) ==> idx.spec_record() == record && is_index_of(
                idx.spec_bitmaps(),
                idx.spec_b_colon(),
                idx.spec_b_comma(),
                record.spec_bytes(),
                old(self).spec_level() as int,
            ),
            r matches Ok(idx) ==> idx.spec_bitmaps() == final(self).spec_bitmaps(),
            r matches Ok(idx) ==> idx.spec_b_colon() == final(self).spec_b_colon(),
            r matches Ok(idx) ==> idx.spec_b_comma() == final(self).spec_b_comma(),
    {
        let bytes = record.as_bytes();
        let ghost s = bytes@;
        let ghost level = self.inner.level as int;
        let b_len: usize = record.len() / 64 + if record.len() % 64 != 0 {
            1
        } else {
            0
        };
        self.inner.bitmaps.clear();
        self.inner.bitmaps.reserve(b_len);
        let mut k: usize = 0;
        while k < self.inner.level
            invariant
                self.inner.wf(),
                self.inner.level == level,
                self.inner.bitmaps@.len() == 0,
                self.backend == old(self).backend,
                k <= level,
                forall|x: int| 0 <= x < k ==> #[trigger] self.inner.b_colon@[x]@.len() == 0,
                forall|x: int| 0 <= x < k ==> #[trigger] self.inner.b_comma@[x]@.len() == 0,
            decreases level - k,
        {
            self.inner.b_colon[k].clear();
            self.inner.b_colon[k].reserve(b_len);
            self.inner.b_comma[k].clear();
            self.inner.b_comma[k].reserve(b_len);
            k = k + 1;
        }

        // Step 1
        self.inner.build_structural_character_bitmaps(bytes, &self.backend);
        let ghost bms1 = self.inner.bitmaps@;
        proof {
            assert forall|w: int| 0 <= w < bms1.len() implies is_char_bitmap(#[trigger] bms1[w], s, 64 * w) by {
                assert(is_char_bitmap(bms1[w], s, 64 * (w - 0)));
            }
            lemma_char_streams(bms1, s);
        }

        // Step 2
        self.inner.remove_unstructural_quotes();
        let ghost bms2 = self.inner.bitmaps@;
        proof {
            assert forall|p: int| #[trigger] gbit(quote_words(bms2), p) == structural_quotes(s)(p) by {
                assert(stream(backslash_words(bms1)) == is_char(s, BACKSLASH));
            }
            assert(stream(quote_words(bms2)) =~= structural_quotes(s));
            assert(backslash_words(bms2) =~= backslash_words(bms1));
            assert(colon_words(bms2) =~= colon_words(bms1));
            assert(comma_words(bms2) =~= comma_words(bms1));
            assert(left_brace_words(bms2) =~= left_brace_words(bms1));
            assert(right_brace_words(bms2) =~= right_brace_words(bms1));
            assert(left_bracket_words(bms2) =~= left_bracket_words(bms1));
            assert(right_bracket_words(bms2) =~= right_bracket_words(bms1));
        }

        // Step 3
        let r3 = self.inner.remove_unstructural_characters();
        let ghost bms3 = self.inner.bitmaps@;
        proof {
            assert forall|q: int| s.len() <= q < 64 * bms2.len() implies !#[trigger] structural_quotes(s)(q) by {}
            lemma_count_skip(structural_quotes(s), s.len() as int, 64 * (bms2.len() as int));
            assert(backslash_words(bms3) =~= backslash_words(bms2));
            assert(quote_words(bms3) =~= quote_words(bms2));
            assert(stream(colon_words(bms3)) =~= structural(s, COLON));
            assert(stream(comma_words(bms3)) =~= structural(s, COMMA));
            assert(stream(left_brace_words(bms3)) =~= structural(s, LEFT_BRACE));
            assert(stream(right_brace_words(bms3)) =~= structural(s, RIGHT_BRACE));
            assert(stream(left_bracket_words(bms3)) =~= structural(s, LEFT_BRACKET));
            assert(stream(right_bracket_words(bms3)) =~= structural(s, RIGHT_BRACKET));
            assert(brackets_of(bms3) == record_brackets(s));
            assert forall|ev: int| 2 * s.len() <= ev < 128 * bms3.len() implies !#[trigger] nest_event(record_brackets(s), ev) by {}
            lemma_nesting_skip(record_brackets(s), level, 2 * (s.len() as int), 128 * (bms3.len() as int));
        }
        match r3 {
            Err(e) => {
                return Err(e);
            },
            Ok(()) => {},
        }

        // Step 4
        let r4 = self.inner.build_leveled_bitmaps();
        match r4 {
            Err(e) => {
                return Err(e);
            },
            Ok(()) => {},
        }
        proof {
            let removed = record_nesting(s, level)->Ok_0.removed;
            assert(levels_of(rows(self.inner.b_colon@), structural(s, COLON), word_count(s.len() as int), removed, level));
            assert(levels_of(rows(self.inner.b_comma@), structural(s, COMMA), word_count(s.len() as int), removed, level));
        }
        Ok(StructuralIndex::new(record, &self.inner))
    }
}

/// Whether `e` is the error reported for braces and brackets that nest as `n` says: the
/// message of the failure, chained onto an invalid record.
pub open spec fn nest_refusal(e: Error, n: Result<Nest, NestError>) -> bool {
    &&& e.spec_cause() == Some(ErrorKind::InvalidRecord)
    &&& match n {
        Err(NestError::Unopened) => e.spec_kind() matches ErrorKind::Msg(m) && m@
            == unopened_message(),
        Err(NestError::Mismatched) => e.spec_kind() matches ErrorKind::Msg(m) && m@
            == mismatch_message(),
        Ok(_) => false,
    }
}

/// Whether `e` is the error reported for the refused record `s`: an invalid record when its
/// quotes do not pair up, else the failure of its braces and brackets.
pub open spec fn refusal(e: Error, s: Seq<u8>, level: int) -> bool {
    if count_before(structural_quotes(s), s.len() as int) % 2 == 1 {
        e.spec_kind() == ErrorKind::InvalidRecord && e.spec_cause() == None::<ErrorKind>
    } else {
        nest_refusal(e, record_nesting(s, level))
    }
}

/// Whether two bitmaps agree on every field but the quotes.
pub open spec fn same_but_quote(a: Bitmap, b: Bitmap) -> bool {
    &&& a.backslash == b.backslash
    &&& a.colon == b.colon
    &&& a.comma == b.comma
    &&& a.left_brace == b.left_brace
    &&& a.right_brace == b.right_brace
    &&& a.left_bracket == b.left_bracket
    &&& a.right_bracket == b.right_bracket
}

/// Whether a quote at position `p` is escaped by the backslashes `bs`.
pub open spec fn escaped(bs: Seq<u64>, p: int) -> bool {
    run_before(stream(bs), p) % 2 == 1
}

/// Whether `new` is `old` with the colons, commas, braces and brackets that stand inside
/// strings removed.
pub open spec fn outside_strings_only(new: Seq<Bitmap>, old: Seq<Bitmap>) -> bool {
    let qs = stream(quote_words(old));
    &&& new.len() == old.len()
    &&& forall|w: int|
        0 <= w < old.len() ==> (#[trigger] new[w]).backslash == old[w].backslash && new[w].quote
            == old[w].quote
    &&& forall|p: int|
        #[trigger] gbit(colon_words(new), p) == (gbit(colon_words(old), p) && !in_string(qs, p))
    &&& forall|p: int|
        #[trigger] gbit(comma_words(new), p) == (gbit(comma_words(old), p) && !in_string(qs, p))
    &&& forall|p: int|
        #[trigger] gbit(left_brace_words(new), p) == (gbit(left_brace_words(old), p)
            && !in_string(qs, p))
    &&& forall|p: int|
        #[trigger] gbit(right_brace_words(new), p) == (gbit(right_brace_words(old), p)
            && !in_string(qs, p))
    &&& forall|p: int|
        #[trigger] gbit(left_bracket_words(new), p) == (gbit(left_bracket_words(old), p)
            && !in_string(qs, p))
    &&& forall|p: int|
        #[trigger] gbit(right_bracket_words(new), p) == (gbit(right_bracket_words(old), p)
            && !in_string(qs, p))
}

/// Whether word `new` is word `old` (the word at `64 * w`) with the colons, commas, braces
/// and brackets inside the strings of `qs` removed.
spec fn word_outside(new: Bitmap, old: Bitmap, qs: spec_fn(int) -> bool, w: int) -> bool {
    &&& new.backslash == old.backslash
    &&& new.quote == old.quote
    &&& forall|b: int|
        0 <= b < 64 ==> #[trigger] bit(new.colon, b) == (bit(old.colon, b) && !in_string(
            qs,
            64 * w + b,
        ))
    &&& forall|b: int|
        0 <= b < 64 ==> #[trigger] bit(new.comma, b) == (bit(old.comma, b) && !in_string(
            qs,
            64 * w + b,
        ))
    &&& forall|b: int|
        0 <= b < 64 ==> #[trigger] bit(new.left_brace, b) == (bit(old.left_brace, b) && !in_string(
            qs,
            64 * w + b,
        ))
    &&& forall|b: int|
        0 <= b < 64 ==> #[trigger] bit(new.right_brace, b) == (bit(old.right_brace, b)
            && !in_string(qs, 64 * w + b))
    &&& forall|b: int|
        0 <= b < 64 ==> #[trigger] bit(new.left_bracket, b) == (bit(old.left_bracket, b)
            && !in_string(qs, 64 * w + b))
    &&& forall|b: int|
        0 <= b < 64 ==> #[trigger] bit(new.right_bracket, b) == (bit(old.right_bracket, b)
            && !in_string(qs, 64 * w + b))
}

/// The positions of the word at `base` that stand inside strings, and the number of quotes
/// before the next word (modulo 2^64), given `n`, the number before this word.
fn string_mask(quote: u64, n: u64, Ghost(qs): Ghost<spec_fn(int) -> bool>, Ghost(base): Ghost<int>) -> (r: (u64, u64))
    requires
        base >= 0,
        forall|b: int| 0 <= b < 64 ==> #[trigger] bit(quote, b) == qs(base + b),
        n as int == count_before(qs, base) % 0x1_0000_0000_0000_0000,
    ensures
        forall|b: int| 0 <= b < 64 ==> #[trigger] bit(r.0, b) == in_string(qs, base + b),
        r.1 as int == count_before(qs, base + 64) % 0x1_0000_0000_0000_0000,
{
    let mut n = n;
    let mut m_quote = quote;
    let mut m_string = 0u64;
    let ghost mut c: int = 0;
    while m_quote != 0
        invariant
            0 <= c <= 64,
            base >= 0,
            forall|b: int| 0 <= b < 64 ==> #[trigger] bit(quote, b) == qs(base + b),
            forall|b: int| #[trigger] bit(m_quote, b) == (bit(quote, b) && b >= c),
            n as int == count_before(qs, base + c) % 0x1_0000_0000_0000_0000,
            forall|b: int|
                #[trigger] bit(m_string, b) == (0 <= b < c && (count_before(qs, base + c)
                    - count_before(qs, base + b)) % 2 == 1),
        decreases m_quote,
    {
        let ghost t = lowest(m_quote);
        proof {
            lemma_lowest(m_quote);
            assert forall|q: int| base + c <= q < base + t implies !#[trigger] qs(q) by {
                assert(bit(quote, q - base) == qs(q));
                assert(!bit(m_quote, q - base));
            }
            lemma_count_skip(qs, base + c, base + t);
            assert(bit(quote, t) == qs(base + t));
            assert(count_before(qs, base + t + 1) == count_before(qs, base + t) + 1);
            lemma_wrap_inc(n, count_before(qs, base + c) as int);
        }
        // invert all of bits from the rightmost 1 of `m_quote` to the end
        m_string = m_string ^ S(m_quote);
        // remove the rightmost 1 from `m_quote`
        m_quote = R(m_quote);
        n = n.wrapping_add(1);
        proof {
            let c0 = c;
            c = t + 1;
            assert forall|b: int|
                #[trigger] bit(m_string, b) == (0 <= b < c && (count_before(qs, base + c)
                    - count_before(qs, base + b)) % 2 == 1) by {
                if c0 <= b <= t {
                    lemma_count_skip(qs, base + c0, base + b);
                }
            }
        }
    }
    proof {
        assert forall|q: int| base + c <= q < base + 64 implies !#[trigger] qs(q) by {
            assert(bit(quote, q - base) == qs(q));
            assert(!bit(m_quote, q - base));
        }
        lemma_count_skip(qs, base + c, base + 64);
        lemma_wrap_inc(n, count_before(qs, base + 64) as int);
    }
    if is_odd(n) {
        m_string = m_string ^ !0u64;
    }
    proof {
        assert forall|b: int| 0 <= b < 64 implies #[trigger] bit(m_string, b) == in_string(qs, base + b) by {
            if c <= b {
                lemma_count_skip(qs, base + c, base + b);
            }
        }
    }
    (m_string, n)
}

/// Masking each word by the in-string positions removes exactly the characters inside
/// strings.
proof fn lemma_outside_strings_only(new: Seq<Bitmap>, old: Seq<Bitmap>)
    requires
        new.len() == old.len(),
        forall|w: int|
            0 <= w < old.len() ==> word_outside(#[trigger] new[w], old[w], stream(quote_words(old)), w),
    ensures
        outside_strings_only(new, old),
{
    let qs = stream(quote_words(old));
    assert forall|p: int|
        0 <= p < 64 * old.len() implies {
            &&& #[trigger] gbit(colon_words(new), p) == (gbit(colon_words(old), p) && !in_string(qs, p))
            &&& gbit(comma_words(new), p) == (gbit(comma_words(old), p) && !in_string(qs, p))
            &&& gbit(left_brace_words(new), p) == (gbit(left_brace_words(old), p) && !in_string(qs, p))
            &&& gbit(right_brace_words(new), p) == (gbit(right_brace_words(old), p) && !in_string(qs, p))
            &&& gbit(left_bracket_words(new), p) == (gbit(left_bracket_words(old), p) && !in_string(qs, p))
            &&& gbit(right_bracket_words(new), p) == (gbit(right_bracket_words(old), p) && !in_string(qs, p))
        } by {
        lemma_split(p);
        let w = p / 64;
        let b = p % 64;
        assert(word_outside(new[w], old[w], qs, w));
        lemma_gbit(colon_words(new), w, b);
        lemma_gbit(colon_words(old), w, b);
        lemma_gbit(comma_words(new), w, b);
        lemma_gbit(comma_words(old), w, b);
        lemma_gbit(left_brace_words(new), w, b);
        lemma_gbit(left_brace_words(old), w, b);
        lemma_gbit(right_brace_words(new), w, b);
        lemma_gbit(right_brace_words(old), w, b);
        lemma_gbit(left_bracket_words(new), w, b);
        lemma_gbit(left_bracket_words(old), w, b);
        lemma_gbit(right_bracket_words(new), w, b);
        lemma_gbit(right_bracket_words(old), w, b);
    }
}

/// Whether word `w` of `new` is word `w` of `old` without the positions `lo .. hi`.
spec fn word_cleared(new: Seq<u64>, old: Seq<u64>, w: int, lo: int, hi: int) -> bool {
    forall|b: int|
        0 <= b < 64 ==> #[trigger] bit(new[w], b) == (bit(old[w], b) && !(lo <= 64 * w + b < hi))
}

/// Removes the positions `64 * j + a .. 64 * i + c` from a row of words, given
/// `lbit == 1 << a` and `rbit == 1 << c`.
fn clear_span(
    row: &mut Vec<u64>,
    j: usize,
    lbit: u64,
    i: usize,
    rbit: u64,
    Ghost(a): Ghost<u64>,
    Ghost(c): Ghost<u64>,
)
    requires
        j <= i < old(row)@.len(),
        a < 64,
        c < 64,
        lbit == 1u64 << a,
        rbit == 1u64 << c,
        j == i ==> a < c,
    ensures
        final(row)@.len() == old(row)@.len(),
        forall|p: int|
            #[trigger] gbit(final(row)@, p) == (gbit(old(row)@, p) && !(64 * j + a <= p < 64 * i
                + c)),
{
    let ghost old_row = row@;
    let ghost lo = 64 * j + a;
    let ghost hi = 64 * i + c;
    if i == j {
        proof {
            lemma_bit_span(a, c, 0);
        }
        let mask = !rbit.wrapping_sub(lbit);
        let x = row[i] & mask;
        proof {
            assert forall|b: int| 0 <= b < 64 implies #[trigger] bit(x, b) == (bit(old_row[i as int], b) && !(lo <= 64 * i + b < hi)) by {
                lemma_bit_span(a, c, b);
            }
        }
        row.set(i, x);
        proof {
            assert(word_cleared(row@, old_row, i as int, lo, hi));
        }
    } else {
        proof {
            lemma_bit_single(a, 0);
            lemma_bit_single(c, 0);
        }
        let mask = lbit.wrapping_sub(1);
        let x = row[j] & mask;
        proof {
            assert forall|b: int| 0 <= b < 64 implies #[trigger] bit(x, b) == (bit(old_row[j as int], b) && !(lo <= 64 * j + b < hi)) by {
                lemma_bit_single(a, b);
            }
        }
        row.set(j, x);
        let mask = !rbit.wrapping_sub(1);
        let x = row[i] & mask;
        proof {
            assert forall|b: int| 0 <= b < 64 implies #[trigger] bit(x, b) == (bit(old_row[i as int], b) && !(lo <= 64 * i + b < hi)) by {
                lemma_bit_single(c, b);
            }
        }
        row.set(i, x);
        proof {
            assert(word_cleared(row@, old_row, j as int, lo, hi));
            assert(word_cleared(row@, old_row, i as int, lo, hi));
        }
        let mut k = j + 1;
        while k < i
            invariant
                j < k <= i < old_row.len(),
                row@.len() == old_row.len(),
                lo == 64 * j + a,
                hi == 64 * i + c,
                a < 64,
                c < 64,
                word_cleared(row@, old_row, j as int, lo, hi),
                word_cleared(row@, old_row, i as int, lo, hi),
                forall|w: int| j < w < k ==> #[trigger] word_cleared(row@, old_row, w, lo, hi),
                forall|w: int| 0 <= w < j || k <= w < i || i < w < old_row.len() ==> #[trigger] row@[w] == old_row[w],
            decreases i - k,
        {
            let ghost prev = row@;
            row.set(k, 0);
            proof {
                assert(word_cleared(row@, old_row, k as int, lo, hi));
                assert forall|w: int| j < w < k + 1 implies #[trigger] word_cleared(row@, old_row, w, lo, hi) by {
                    if w < k {
                        assert(word_cleared(prev, old_row, w, lo, hi));
                        assert(row@[w] == prev[w]);
                    }
                }
                assert(word_cleared(prev, old_row, j as int, lo, hi));
                assert(word_cleared(prev, old_row, i as int, lo, hi));
            }
            k = k + 1;
        }
    }
    proof {
        assert forall|p: int| #[trigger] gbit(row@, p) == (gbit(old_row, p) && !(lo <= p < hi)) by {
            lemma_split(p);
            if 0 <= p < 64 * old_row.len() {
                let w = p / 64;
                lemma_gbit(row@, w, p % 64);
                lemma_gbit(old_row, w, p % 64);
                if j <= w <= i {
                    assert(word_cleared(row@, old_row, w, lo, hi));
                } else {
                    assert(row@[w] == old_row[w]);
                }
            }
        }
    }
}

/// The contents of a vector of rows.
pub(crate) open spec fn rows(v: Seq<Vec<u64>>) -> Seq<Seq<u64>> {
    v.map_values(|r: Vec<u64>| r@)
}

/// Whether the rows of each level are `words` without the positions removed at that level.
pub open spec fn levels_match(
    rows: Seq<Seq<u64>>,
    words: Seq<u64>,
    removed: Set<(int, int)>,
    level: int,
) -> bool {
    &&& rows.len() == level
    &&& forall|k: int| 0 <= k < level ==> (#[trigger] rows[k]).len() == words.len()
    &&& forall|k: int, p: int|
        0 <= k < level ==> #[trigger] gbit(rows[k], p) == (gbit(words, p) && !removed.contains(
            (k, p),
        ))
}

/// Whether the stack of open braces and brackets, each held as its word, its bit and whether
/// it is a brace, is the open part of the nesting before event `e`.
spec fn stack_matches(s: Seq<(usize, u64, bool)>, open: Seq<(int, bool)>, e: int) -> bool {
    &&& s.len() == open.len()
    &&& forall|k: int|
        0 <= k < s.len() ==> {
            &&& 0 <= (#[trigger] open[k]).0
            &&& 2 * open[k].0 + 1 < e
            &&& s[k].0 as int == open[k].0 / 64
            &&& s[k].1 == 1u64 << ((open[k].0 % 64) as u64)
            &&& s[k].2 == open[k].1
        }
}

/// Whether the stack and the rows of each level follow the nesting before event `e`.
spec fn tracks(
    colon: Seq<Seq<u64>>,
    comma: Seq<Seq<u64>>,
    s: Seq<(usize, u64, bool)>,
    bms: Seq<Bitmap>,
    level: int,
    e: int,
) -> bool {
    &&& nesting(brackets_of(bms), level, e) is Ok
    &&& stack_matches(s, nesting(brackets_of(bms), level, e)->Ok_0.open, e)
    &&& levels_match(colon, colon_words(bms), nesting(brackets_of(bms), level, e)->Ok_0.removed, level)
    &&& levels_match(comma, comma_words(bms), nesting(brackets_of(bms), level, e)->Ok_0.removed, level)
}

/// Compute the length of the consecutive ones in the backslash bitmap starting at `pos`
///
/// The length is counted in a `u32` that wraps around, which keeps its parity, the only
/// thing its callers look at.
fn consecutive_ones(b: &[Bitmap], pos: u32) -> (r: u32)
    requires
        b@.len() >= 1,
        pos <= 64,
    ensures
        r as int == run_before(stream(backslash_words(b@)), 64 * (b@.len() - 1) + pos)
            % 0x1_0000_0000,
{
    let ghost ws = backslash_words(b@);
    let ghost last = b@.len() - 1;
    let mut ones = leading_ones(b[b.len() - 1].backslash, pos);
    proof {
        lemma_run_in_word(ws, last, pos as int);
    }
    if ones < pos {
        return ones;
    }
    let mut k: usize = b.len() - 1;
    while k > 0
        invariant
            k <= last,
            last == b@.len() - 1,
            ws == backslash_words(b@),
            ones as int == (pos + 64 * (last - k)) % 0x1_0000_0000,
            run_before(stream(ws), 64 * last + pos) == pos + 64 * (last - k) + run_before(
                stream(ws),
                64 * k,
            ),
        decreases k,
    {
        k = k - 1;
        let l = leading_ones(b[k].backslash, 64);
        proof {
            lemma_run_in_word(ws, k as int, 64);
            lemma_wrap_add(ones, l, pos + 64 * (last - k - 1));
            lemma_wrap_add(ones, 64, pos + 64 * (last - k - 1));
        }
        if l < 64 {
            return ones.wrapping_add(l);
        }
        ones = ones.wrapping_add(64);
    }
    ones
}

impl Inner {
    /// The bitmaps of each level stand ready for every level.
    pub(crate) open spec fn wf(&self) -> bool {
        &&& self.b_colon@.len() == self.level
        &&& self.b_comma@.len() == self.level
    }

    pub(crate) open spec fn spec_level(&self) -> nat {
        self.level as nat
    }

    /// No bitmaps yet, and `level` empty rows of colon and comma bitmaps.
    #[inline]
    fn new(level: usize) -> (r: Self)
        ensures
            r.wf(),
            r.level == level,
            r.bitmaps@.len() == 0,
            forall|k: int| 0 <= k < level ==> #[trigger] r.b_colon@[k]@.len() == 0,
            forall|k: int| 0 <= k < level ==> #[trigger] r.b_comma@[k]@.len() == 0,
    {
        let mut b_colon: Vec<Vec<u64>> = Vec::new();
        let mut b_comma: Vec<Vec<u64>> = Vec::new();
        let mut k: usize = 0;
        while k < level
            invariant
                k <= level,
                b_colon@.len() == k,
                b_comma@.len() == k,
                forall|j: int| 0 <= j < k ==> #[trigger] b_colon@[j]@.len() == 0,
                forall|j: int| 0 <= j < k ==> #[trigger] b_comma@[j]@.len() == 0,
            decreases level - k,
        {
            b_colon.push(Vec::new());
            b_comma.push(Vec::new());
            k = k + 1;
        }
        Inner { bitmaps: Vec::new(), b_colon, b_comma, level }
    }

    /// Appends the character bitmaps of each word of 64 bytes of `record`.
    fn build_structural_character_bitmaps<B: Backend>(&mut self, record: &[u8], backend: &B)
        ensures
            final(self).bitmaps@.len() == old(self).bitmaps@.len() + record@.len() / 64 + if record@.len()
                % 64 != 0 {
                1int
            } else {
                0int
            },
            forall|w: int|
                0 <= w < old(self).bitmaps@.len() ==> #[trigger] final(self).bitmaps@[w] == old(
                    self,
                ).bitmaps@[w],
            forall|w: int|
                old(self).bitmaps@.len() <= w < final(self).bitmaps@.len() ==> is_char_bitmap(
                    #[trigger] final(self).bitmaps@[w],
                    record@,
                    64 * (w - old(self).bitmaps@.len()),
                ),
            final(self).b_colon == old(self).b_colon,
            final(self).b_comma == old(self).b_comma,
            final(self).level == old(self).level,
    {
        let ghost n0 = old(self).bitmaps@.len();
        let full: usize = record.len() / 64;
        let mut i: usize = 0;
        while i < full
            invariant
                full == record@.len() / 64,
                i <= full,
                self.bitmaps@.len() == n0 + i,
                forall|w: int| 0 <= w < n0 ==> #[trigger] self.bitmaps@[w] == old(self).bitmaps@[w],
                forall|w: int|
                    n0 <= w < self.bitmaps@.len() ==> is_char_bitmap(
                        #[trigger] self.bitmaps@[w],
                        record@,
                        64 * (w - n0),
                    ),
                self.b_colon == old(self).b_colon,
                self.b_comma == old(self).b_comma,
                self.level == old(self).level,
            decreases full - i,
        {
            assert(i * 64 + 64 <= record.len()) by (nonlinear_arith)
                requires
                    i < full,
                    full == record@.len() / 64,
                    record.len() == record@.len(),
            ;
            let bm = backend.create_full_bitmap(record, i * 64);
            self.bitmaps.push(bm);
            i = i + 1;
        }
        if record.len() % 64 != 0 {
            let bm = backend.create_partial_bitmap(record, (record.len() / 64) * 64);
            self.bitmaps.push(bm);
        }
    }

    /// Removes the quotes that an odd run of backslashes escapes.
    fn remove_unstructural_quotes(&mut self)
        ensures
            final(self).bitmaps@.len() == old(self).bitmaps@.len(),
            forall|w: int|
                0 <= w < old(self).bitmaps@.len() ==> same_but_quote(
                    #[trigger] final(self).bitmaps@[w],
                    old(self).bitmaps@[w],
                ),
            forall|p: int|
                #[trigger] gbit(quote_words(final(self).bitmaps@), p) == (gbit(
                    quote_words(old(self).bitmaps@),
                    p,
                ) && !escaped(backslash_words(old(self).bitmaps@), p)),
            final(self).b_colon == old(self).b_colon,
            final(self).b_comma == old(self).b_comma,
            final(self).level == old(self).level,
    {
        let ghost old_bms = self.bitmaps@;
        let ghost bs = backslash_words(old_bms);
        let ghost qs = quote_words(old_bms);
        let mut uu = 0u64;
        let mut i: usize = 0;
        while i < self.bitmaps.len()
            invariant
                old_bms == old(self).bitmaps@,
                bs == backslash_words(old_bms),
                qs == quote_words(old_bms),
                self.bitmaps@.len() == old_bms.len(),
                i <= old_bms.len(),
                forall|w: int|
                    0 <= w < old_bms.len() ==> same_but_quote(
                        #[trigger] self.bitmaps@[w],
                        old_bms[w],
                    ),
                forall|w: int| i <= w < old_bms.len() ==> #[trigger] self.bitmaps@[w] == old_bms[w],
                forall|w: int, b: int|
                    0 <= w < i && 0 <= b < 64 ==> (#[trigger] bit(self.bitmaps@[w].quote, b) == (
                    bit(old_bms[w].quote, b) && !escaped(bs, 64 * w + b))),
                bit(uu, 63) == (i > 0 && gbit(qs, 64 * i) && escaped(bs, 64 * i)),
                self.b_colon == old(self).b_colon,
                self.b_comma == old(self).b_comma,
                self.level == old(self).level,
            decreases old_bms.len() - i,
        {
            let q1 = self.bitmaps[i].quote;
            let q2 = if i + 1 == self.bitmaps.len() {
                0
            } else {
                self.bitmaps[i + 1].quote
            };
            let mut bsq = (q1 >> 1 | q2 << 63) & self.bitmaps[i].backslash;
            let ghost bsq0 = bsq;
            proof {
                assert forall|b: int| #[trigger] bit(bsq0, b) == (0 <= b < 64 && bit(bs[i as int], b) && gbit(qs, 64 * i + b + 1)) by {
                    lemma_bit_shift(q1, b);
                    lemma_bit_shift(q2, b);
                    if 0 <= b < 63 {
                        lemma_gbit(qs, i as int, b + 1);
                    } else if b == 63 {
                        if i + 1 < old_bms.len() {
                            lemma_gbit(qs, i + 1, 0);
                        }
                    }
                }
            }
            // extract the bits for escaping a quote from `bsq`.
            let mut u = 0u64;
            while bsq != 0
                invariant
                    old_bms == old(self).bitmaps@,
                    bs == backslash_words(old_bms),
                    qs == quote_words(old_bms),
                    self.bitmaps@.len() == old_bms.len(),
                    i < old_bms.len(),
                    i < self.bitmaps.len(),
                    forall|w: int|
                        0 <= w < old_bms.len() ==> same_but_quote(
                            #[trigger] self.bitmaps@[w],
                            old_bms[w],
                        ),
                    forall|b: int| #[trigger] bit(bsq, b) ==> bit(bsq0, b),
                    forall|b: int|
                        #[trigger] bit(u, b) == (bit(bsq0, b) && !bit(bsq, b) && escaped(
                            bs,
                            64 * i + b + 1,
                        )),
                decreases bsq,
            {
                // The target backslash bit.
                let target = E(bsq);
                let ghost t = lowest(bsq);
                proof {
                    lemma_lowest(bsq);
                    lemma_single_leading_zeros(t as u64);
                }
                let pos = 64 - target.leading_zeros();
                let ghost slice = self.bitmaps@.subrange(0, i + 1);
                let ones = consecutive_ones(&self.bitmaps[0..i + 1], pos);
                proof {
                    assert(pos == t + 1);
                    assert forall|q: int| 0 <= q < 64 * i + pos implies #[trigger] stream(backslash_words(slice))(q) == stream(bs)(q) by {
                        lemma_split(q);
                        lemma_gbit(backslash_words(slice), q / 64, q % 64);
                        lemma_gbit(bs, q / 64, q % 64);
                    }
                    lemma_run_before_agree(stream(backslash_words(slice)), stream(bs), 64 * i + pos);
                    lemma_mod_parity(run_before(stream(bs), 64 * i + pos) as int);
                }
                if is_odd(ones as u64) {
                    u = u | target;
                }
                proof {
                    lemma_clear_smaller(bsq, t as u64);
                }
                bsq = bsq ^ target;  // clear the target bit.
            }
            let mask = !(uu >> 63 | u << 1);
            let mut bm = self.bitmaps[i];
            bm.quote = bm.quote & mask;
            proof {
                assert forall|b: int| 0 <= b < 64 implies #[trigger] bit(bm.quote, b) == (bit(old_bms[i as int].quote, b) && !escaped(bs, 64 * i + b)) by {
                    lemma_bit_shift(uu, b);
                    lemma_bit_shift(u, b);
                    lemma_gbit(qs, i as int, b);
                    if b >= 1 {
                        lemma_gbit(bs, i as int, b - 1);
                        assert(escaped(bs, 64 * i + b) ==> stream(bs)(64 * i + b - 1));
                    }
                }
                assert(bit(u, 63) == (gbit(qs, 64 * (i + 1)) && escaped(bs, 64 * (i + 1)))) by {
                    lemma_gbit(bs, i as int, 63);
                    assert(escaped(bs, 64 * i + 64) ==> stream(bs)(64 * i + 63));
                }
            }
            self.bitmaps.set(i, bm);
            // save the current result for next iteration
            uu = u;
            i = i + 1;
        }
        proof {
            assert forall|p: int| #[trigger] gbit(quote_words(self.bitmaps@), p) == (gbit(qs, p) && !escaped(bs, p)) by {
                lemma_split(p);
                if 0 <= p < 64 * old_bms.len() {
                    lemma_gbit(quote_words(self.bitmaps@), p / 64, p % 64);
                    lemma_gbit(qs, p / 64, p % 64);
                }
            }
        }
    }
}

impl Inner {
    /// Removes the colons, commas, braces and brackets that stand inside strings; fails
    /// when the quotes do not pair up. The quotes are counted in a `u64` that wraps around,
    /// which keeps the parity of their number.
    fn remove_unstructural_characters(&mut self) -> (r: Result<(), Error>)
        ensures
            outside_strings_only(final(self).bitmaps@, old(self).bitmaps@),
            r is Err <==> count_before(
                stream(quote_words(old(self).bitmaps@)),
                64 * (old(self).bitmaps@.len() as int),
            ) % 2 == 1,
            r matches Err(e) ==> e.spec_kind() == ErrorKind::InvalidRecord && e.spec_cause()
                == None::<ErrorKind>,
            final(self).b_colon == old(self).b_colon,
            final(self).b_comma == old(self).b_comma,
            final(self).level == old(self).level,
    {
        let ghost old_bms = self.bitmaps@;
        let ghost sq = stream(quote_words(old_bms));
        // The number of quotes in structural quote bitmap
        let mut n: u64 = 0;
        let mut i: usize = 0;
        while i < self.bitmaps.len()
            invariant
                old_bms == old(self).bitmaps@,
                sq == stream(quote_words(old_bms)),
                self.bitmaps@.len() == old_bms.len(),
                i <= old_bms.len(),
                n as int == count_before(sq, 64 * i) % 0x1_0000_0000_0000_0000,
                forall|w: int|
                    0 <= w < i ==> word_outside(#[trigger] self.bitmaps@[w], old_bms[w], sq, w),
                forall|w: int| i <= w < old_bms.len() ==> #[trigger] self.bitmaps@[w] == old_bms[w],
                self.b_colon == old(self).b_colon,
                self.b_comma == old(self).b_comma,
                self.level == old(self).level,
            decreases old_bms.len() - i,
        {
            proof {
                assert forall|b: int| 0 <= b < 64 implies #[trigger] bit(self.bitmaps@[i as int].quote, b) == sq(64 * i + b) by {
                    lemma_gbit(quote_words(old_bms), i as int, b);
                }
            }
            let (m_string, n2) = string_mask(self.bitmaps[i].quote, n, Ghost(sq), Ghost(64 * i));
            n = n2;
            let mut bm = self.bitmaps[i];
            bm.colon = bm.colon & !m_string;
            bm.comma = bm.comma & !m_string;
            bm.left_brace = bm.left_brace & !m_string;
            bm.right_brace = bm.right_brace & !m_string;
            bm.left_bracket = bm.left_bracket & !m_string;
            bm.right_bracket = bm.right_bracket & !m_string;
            proof {
                assert(word_outside(bm, old_bms[i as int], sq, i as int));
            }
            self.bitmaps.set(i, bm);
            i = i + 1;
        }
        proof {
            lemma_wrap_inc(n, count_before(sq, 64 * (old_bms.len() as int)) as int);
            lemma_outside_strings_only(self.bitmaps@, old_bms);
        }
        if !is_even(n) {
            return Err(Error::from_kind(ErrorKind::InvalidRecord));
        }
        Ok(())
    }
}

impl Inner {
    /// Handles what closes at position `64 * i + c` of the record, given
    /// `m_rightbit == 1 << c`.
    fn close_at(
        &mut self,
        s: &mut Vec<(usize, u64, bool)>,
        i: usize,
        m_rightbit: u64,
        Ghost(bms): Ghost<Seq<Bitmap>>,
        Ghost(c): Ghost<u64>,
    ) -> (r: Result<(), Error>)
        requires
            old(self).wf(),
            bms == old(self).bitmaps@,
            i < bms.len(),
            c < 64,
            m_rightbit == 1u64 << c,
            closes_at(brackets_of(bms), 64 * i + c),
            tracks(
                rows(old(self).b_colon@),
                rows(old(self).b_comma@),
                old(s)@,
                bms,
                old(self).level as int,
                2 * (64 * i + c),
            ),
        ensures
            final(self).wf(),
            final(self).bitmaps == old(self).bitmaps,
            final(self).level == old(self).level,
            r is Err <==> nesting(brackets_of(bms), old(self).level as int, 2 * (64 * i + c) + 1) is Err,
            r matches Err(e) ==> nest_refusal(
                e,
                nesting(brackets_of(bms), old(self).level as int, 2 * (64 * i + c) + 1),
            ),
            r is Ok ==> tracks(
                rows(final(self).b_colon@),
                rows(final(self).b_comma@),
                final(s)@,
                bms,
                old(self).level as int,
                2 * (64 * i + c) + 1,
            ),
    {
        let ghost level = self.level as int;
        let ghost rp: int = 64 * i + c;
        let ghost e: int = 2 * rp;
        let ghost st = nesting(brackets_of(bms), level, e)->Ok_0;
        proof {
            lemma_gbit(bms.map_values(|b: Bitmap| b.right_brace), i as int, c as int);
            assert(e / 2 == rp && e % 2 == 0);
            assert(nesting(brackets_of(bms), level, e + 1) == nest_step(brackets_of(bms), level, st, e));
        }
        let popped = s.pop();
        let (j, mlb, t) = match popped {
            Some(x) => x,
            None => {
                return Err(Error::from_kind(ErrorKind::InvalidRecord).chain("s.pop()".to_owned()));
            },
        };
        proof {
            lemma_bit_test(self.bitmaps@[i as int].right_brace, c);
        }
        if t != (m_rightbit & self.bitmaps[i].right_brace != 0) {
            return Err(
                Error::from_kind(ErrorKind::InvalidRecord).chain("invalid bracket/brace".to_owned()),
            );
        }
        let ghost top = st.open.last();
        let ghost rest = st.open.drop_last();
        let ghost lp = top.0;
        let ghost a: u64 = (lp % 64) as u64;
        proof {
            assert(st.open[st.open.len() - 1] == top);
            assert(lp < rp);
            lemma_split(lp);
        }
        let m_leftbit = mlb;
        if s.len() > 0 && s.len() - 1 < self.level {
            let lvl = s.len() - 1;
            proof {
                assert(lvl < self.b_colon@.len());
                assert(rows(self.b_colon@)[lvl as int].len() == bms.len());
                assert(rows(self.b_comma@)[lvl as int].len() == bms.len());
                assert(j == lp / 64);
                assert(mlb == 1u64 << a);
                assert(j <= i);
            }
            let ghost old_colon = rows(self.b_colon@);
            let ghost old_comma = rows(self.b_comma@);
            clear_span(&mut self.b_colon[lvl], j, m_leftbit, i, m_rightbit, Ghost(a), Ghost(c));
            clear_span(&mut self.b_comma[lvl], j, m_leftbit, i, m_rightbit, Ghost(a), Ghost(c));
            proof {
                let new_st = nesting(brackets_of(bms), level, e + 1)->Ok_0;
                assert(new_st.removed == st.removed.union(
                    Set::new(|kq: (int, int)| kq.0 == lvl && lp <= kq.1 < rp),
                ));
                assert(rows(self.b_colon@) == old_colon.update(lvl as int, rows(self.b_colon@)[lvl as int]));
                assert(rows(self.b_comma@) == old_comma.update(lvl as int, rows(self.b_comma@)[lvl as int]));
                assert(levels_match(rows(self.b_colon@), colon_words(bms), new_st.removed, level));
                assert(levels_match(rows(self.b_comma@), comma_words(bms), new_st.removed, level));
            }
        }
        proof {
            let new_st = nesting(brackets_of(bms), level, e + 1)->Ok_0;
            assert(new_st.open == rest);
            assert(s@ == old(s)@.drop_last());
            assert(stack_matches(s@, new_st.open, e + 1));
        }
        Ok(())
    }
}

/// Where braces and brackets open and close at position `q` of word `i`, read off the word's
/// bitmap `b`, given `lw` and `rw`, its opening and closing bits.
spec fn word_events(bms: Seq<Bitmap>, i: int, lw: u64, rw: u64, b: Bitmap, q: int) -> bool {
    &&& opens_at(brackets_of(bms), q) == bit(lw, q - 64 * i)
    &&& closes_at(brackets_of(bms), q) == bit(rw, q - 64 * i)
    &&& gbit(left_brace_words(bms), q) == bit(b.left_brace, q - 64 * i)
}

/// The opening (`left`) or closing bits of word `i` of `bms` still to be read before event
/// `e` is.
spec fn pending(m: u64, word: u64, i: int, e: int, odd: int) -> bool {
    forall|b: int| #[trigger] bit(m, b) == (bit(word, b) && 2 * (64 * i + b) + odd >= e)
}

/// Between events `e` and `target` of word `i`, where `m_left` holds no opening bit and
/// `m_right` no closing bit, nothing opens or closes, so the nesting stays as it is.
proof fn lemma_quiet_stretch(
    bms: Seq<Bitmap>,
    level: int,
    i: int,
    lw: u64,
    rw: u64,
    b: Bitmap,
    m_left: u64,
    m_right: u64,
    e: int,
    target: int,
)
    requires
        0 <= i,
        128 * i <= e <= target <= 128 * i + 128,
        forall|q: int| 64 * i <= q < 64 * i + 64 ==> #[trigger] word_events(bms, i, lw, rw, b, q),
        pending(m_left, lw, i, e, 1),
        pending(m_right, rw, i, e, 0),
        forall|x: int| 0 <= x < 64 && 2 * (64 * i + x) + 1 < target ==> !#[trigger] bit(m_left, x),
        forall|x: int| 0 <= x < 64 && 2 * (64 * i + x) < target ==> !#[trigger] bit(m_right, x),
    ensures
        nesting(brackets_of(bms), level, target) == nesting(brackets_of(bms), level, e),
{
    assert forall|ev: int| e <= ev < target implies !#[trigger] nest_event(brackets_of(bms), ev) by {
        let q = ev / 2;
        assert(64 * i <= q < 64 * i + 64);
        assert(word_events(bms, i, lw, rw, b, q));
        assert(bit(m_left, q - 64 * i) == (bit(lw, q - 64 * i) && 2 * q + 1 >= e));
        assert(bit(m_right, q - 64 * i) == (bit(rw, q - 64 * i) && 2 * q >= e));
    }
    lemma_nesting_skip(brackets_of(bms), level, e, target);
}

impl Inner {
    /// Reads the braces and brackets of word `i`.
    fn level_word(
        &mut self,
        s: &mut Vec<(usize, u64, bool)>,
        i: usize,
        Ghost(bms): Ghost<Seq<Bitmap>>,
    ) -> (r: Result<(), Error>)
        requires
            old(self).wf(),
            bms == old(self).bitmaps@,
            i < bms.len(),
            tracks(
                rows(old(self).b_colon@),
                rows(old(self).b_comma@),
                old(s)@,
                bms,
                old(self).level as int,
                128 * i,
            ),
        ensures
            final(self).wf(),
            final(self).bitmaps == old(self).bitmaps,
            final(self).level == old(self).level,
            r is Err <==> nesting(brackets_of(bms), old(self).level as int, 128 * (i + 1)) is Err,
            r matches Err(e) ==> nest_refusal(
                e,
                nesting(brackets_of(bms), old(self).level as int, 128 * (i + 1)),
            ),
            r is Ok ==> tracks(
                rows(final(self).b_colon@),
                rows(final(self).b_comma@),
                final(s)@,
                bms,
                old(self).level as int,
                128 * (i + 1),
            ),
    {
        let ghost level = self.level as int;
        let b = self.bitmaps[i];
        let ghost lw = b.left_brace | b.left_bracket;
        let ghost rw = b.right_brace | b.right_bracket;
        let mut m_left = b.left_brace | b.left_bracket;
        let mut m_right = b.right_brace | b.right_bracket;
        let ghost mut e: int = 128 * i;
        proof {
            assert forall|q: int| 64 * i <= q < 64 * i + 64 implies word_events(bms, i as int, lw, rw, b, q) by {
                lemma_gbit(left_brace_words(bms), i as int, q - 64 * i);
                lemma_gbit(left_bracket_words(bms), i as int, q - 64 * i);
                lemma_gbit(right_brace_words(bms), i as int, q - 64 * i);
                lemma_gbit(right_bracket_words(bms), i as int, q - 64 * i);
            }
        }
        loop
            invariant
                self.wf(),
                bms == self.bitmaps@,
                level == self.level,
                i < bms.len(),
                b == bms[i as int],
                lw == b.left_brace | b.left_bracket,
                rw == b.right_brace | b.right_bracket,
                forall|q: int| 64 * i <= q < 64 * i + 64 ==> #[trigger] word_events(bms, i as int, lw, rw, b, q),
                128 * i <= e <= 128 * i + 128,
                pending(m_left, lw, i as int, e, 1),
                pending(m_right, rw, i as int, e, 0),
                tracks(rows(self.b_colon@), rows(self.b_comma@), s@, bms, level, e),
                self.bitmaps == old(self).bitmaps,
                self.level == old(self).level,
            ensures
                self.bitmaps == old(self).bitmaps,
                self.level == old(self).level,
                self.wf(),
                bms == self.bitmaps@,
                level == self.level,
                e == 128 * i + 128,
                tracks(rows(self.b_colon@), rows(self.b_comma@), s@, bms, level, e),
            decreases m_right,
        {
            let m_rightbit = E(m_right);
            let mut m_leftbit = E(m_left);
            let ghost c = lowest(m_right);
            proof {
                lemma_lowest(m_right);
                lemma_lowest(m_left);
                if m_right != 0 && m_left != 0 {
                    lemma_single_order(lowest(m_left) as u64, c as u64);
                }
            }
            while m_leftbit != 0 && (m_rightbit == 0 || m_leftbit < m_rightbit)
                invariant
                    self.wf(),
                    bms == self.bitmaps@,
                    level == self.level,
                    i < bms.len(),
                    b == bms[i as int],
                    lw == b.left_brace | b.left_bracket,
                    rw == b.right_brace | b.right_bracket,
                    forall|q: int| 64 * i <= q < 64 * i + 64 ==> #[trigger] word_events(bms, i as int, lw, rw, b, q),
                    128 * i <= e <= 128 * i + 128,
                    pending(m_left, lw, i as int, e, 1),
                    pending(m_right, rw, i as int, e, 0),
                    tracks(rows(self.b_colon@), rows(self.b_comma@), s@, bms, level, e),
                    self.bitmaps == old(self).bitmaps,
                    self.level == old(self).level,
                    c == lowest(m_right),
                    m_right == 0 ==> m_rightbit == 0,
                    m_right != 0 ==> m_rightbit == 1u64 << (c as u64) && c < 64 && bit(m_right, c),
                    forall|x: int| 0 <= x < c ==> !#[trigger] bit(m_right, x),
                    m_left == 0 ==> m_leftbit == 0,
                    m_left != 0 ==> m_leftbit == 1u64 << (lowest(m_left) as u64) && lowest(m_left) < 64,
                    m_left != 0 && m_right != 0 ==> (m_leftbit < m_rightbit <==> lowest(m_left) < c),
                decreases m_left,
            {
                let ghost a = lowest(m_left);
                let ghost pp: int = 64 * i + a;
                let ghost old_left = m_left;
                let ghost old_e = e;
                proof {
                    lemma_lowest(m_left);
                    lemma_lowest(m_right);
                    if m_right != 0 {
                        lemma_bit_single(c as u64, 0);
                    }
                    assert(a < c);
                    lemma_quiet_stretch(bms, level, i as int, lw, rw, b, m_left, m_right, e, 2 * pp + 1);
                    assert((2 * pp + 1) / 2 == pp && (2 * pp + 1) % 2 == 1);
                    lemma_bit_test(b.left_brace, a as u64);
                    assert(opens_at(brackets_of(bms), pp));
                    assert(gbit(left_brace_words(bms), pp) == bit(b.left_brace, a));
                }
                let t = m_leftbit & b.left_brace != 0;
                s.push((i, m_leftbit, t));
                m_left = R(m_left);
                m_leftbit = E(m_left);
                proof {
                    let st = nesting(brackets_of(bms), level, 2 * pp + 1)->Ok_0;
                    assert(nesting(brackets_of(bms), level, 2 * pp + 2) == nest_step(brackets_of(bms), level, st, 2 * pp + 1));
                    lemma_gbit(bms.map_values(|x: Bitmap| x.colon), i as int, a);
                    assert(pp / 64 == i && pp % 64 == a);
                    e = 2 * pp + 2;
                    let st2 = nesting(brackets_of(bms), level, e)->Ok_0;
                    assert(st2.open == st.open.push((pp, t)));
                    assert forall|k: int| 0 <= k < s@.len() implies {
                        &&& 0 <= (#[trigger] st2.open[k]).0
                        &&& 2 * st2.open[k].0 + 1 < e
                        &&& s@[k].0 as int == st2.open[k].0 / 64
                        &&& s@[k].1 == 1u64 << ((st2.open[k].0 % 64) as u64)
                        &&& s@[k].2 == st2.open[k].1
                    } by {
                        if k < s@.len() - 1 {
                            assert(st2.open[k] == st.open[k]);
                        }
                    }
                    assert(stack_matches(s@, st2.open, e));
                    assert forall|x: int| #[trigger] bit(m_left, x) == (bit(lw, x) && 2 * (64 * i + x) + 1 >= e) by {
                        assert(bit(old_left, x) == (bit(lw, x) && 2 * (64 * i + x) + 1 >= old_e));
                        if 0 <= x < a {
                            assert(!bit(old_left, x));
                        }
                    }
                    assert forall|x: int| #[trigger] bit(m_right, x) == (bit(rw, x) && 2 * (64 * i + x) >= e) by {
                        assert(bit(m_right, x) == (bit(rw, x) && 2 * (64 * i + x) >= old_e));
                        if 0 <= x < c {
                            assert(!bit(m_right, x));
                        }
                    }
                    lemma_lowest(m_left);
                    if m_left != 0 && m_right != 0 {
                        lemma_single_order(lowest(m_left) as u64, c as u64);
                    }
                }
            }
            proof {
                lemma_lowest(m_left);
                lemma_lowest(m_right);
                if m_left != 0 {
                    lemma_bit_single(lowest(m_left) as u64, 0);
                }
                if m_right != 0 {
                    lemma_bit_single(c as u64, 0);
                }
                assert(m_rightbit != 0 ==> (m_left == 0 || lowest(m_left) >= c));
                assert(m_rightbit == 0 ==> m_left == 0 && m_right == 0);
            }
            if m_rightbit != 0 {
                let ghost rp: int = 64 * i + c;
                let ghost old_e = e;
                proof {
                    lemma_quiet_stretch(bms, level, i as int, lw, rw, b, m_left, m_right, e, 2 * rp);
                    e = 2 * rp;
                }
                let r = self.close_at(s, i, m_rightbit, Ghost(bms), Ghost(c as u64));
                if r.is_err() {
                    proof {
                        lemma_nesting_err(brackets_of(bms), level, 2 * rp + 1, 128 * i + 128);
                    }
                    return r;
                }
                proof {
                    e = 2 * rp + 1;
                    assert forall|x: int| #[trigger] bit(m_left, x) == (bit(lw, x) && 2 * (64 * i + x) + 1 >= e) by {
                        assert(bit(m_left, x) == (bit(lw, x) && 2 * (64 * i + x) + 1 >= old_e));
                        if 0 <= x < c {
                            assert(!bit(m_left, x));
                        }
                    }
                }
            }
            let ghost old_right = m_right;
            m_right = R(m_right);
            if m_rightbit == 0 {
                proof {
                    lemma_quiet_stretch(bms, level, i as int, lw, rw, b, m_left, old_right, e, 128 * i + 128);
                    e = 128 * i + 128;
                }
                break;
            }
            proof {
                assert forall|x: int| #[trigger] bit(m_right, x) == (bit(rw, x) && 2 * (64 * i + x) >= e) by {
                    assert(bit(old_right, x) == (bit(rw, x) && 2 * (64 * i + x) >= e - 1));
                    if 0 <= x < c {
                        assert(!bit(old_right, x));
                    }
                }
            }
        }
        Ok(())
    }

    /// Fills the colon and comma bitmaps of each level `k` with the colons and commas,
    /// without those inside a pair of braces or brackets that is opened while `k + 1` others
    /// are open; fails when a brace or bracket closes with nothing open or closes what the
    /// other kind opened.
    fn build_leveled_bitmaps(&mut self) -> (r: Result<(), Error>)
        requires
            old(self).wf(),
            forall|k: int| 0 <= k < old(self).level ==> #[trigger] old(self).b_colon@[k]@.len() == 0,
            forall|k: int| 0 <= k < old(self).level ==> #[trigger] old(self).b_comma@[k]@.len() == 0,
        ensures
            final(self).wf(),
            final(self).bitmaps == old(self).bitmaps,
            final(self).level == old(self).level,
            r is Err <==> leveled(old(self).bitmaps@, old(self).level as int) is Err,
            r matches Err(e) ==> nest_refusal(e, leveled(old(self).bitmaps@, old(self).level as int)),
            r is Ok ==> levels_match(
                rows(final(self).b_colon@),
                colon_words(old(self).bitmaps@),
                leveled(old(self).bitmaps@, old(self).level as int)->Ok_0.removed,
                old(self).level as int,
            ),
            r is Ok ==> levels_match(
                rows(final(self).b_comma@),
                comma_words(old(self).bitmaps@),
                leveled(old(self).bitmaps@, old(self).level as int)->Ok_0.removed,
                old(self).level as int,
            ),
    {
        let ghost bms = self.bitmaps@;
        let ghost level = self.level as int;
        let mut k: usize = 0;
        while k < self.level
            invariant
                self.wf(),
                bms == self.bitmaps@,
                level == self.level,
                k <= level,
                forall|x: int| 0 <= x < k ==> #[trigger] self.b_colon@[x]@ == colon_words(bms),
                self.bitmaps == old(self).bitmaps,
                self.level == old(self).level,
                forall|x: int| 0 <= x < k ==> #[trigger] self.b_comma@[x]@ == comma_words(bms),
                forall|x: int| k <= x < level ==> #[trigger] self.b_colon@[x]@.len() == 0,
                forall|x: int| k <= x < level ==> #[trigger] self.b_comma@[x]@.len() == 0,
            decreases level - k,
        {
            let mut w: usize = 0;
            while w < self.bitmaps.len()
                invariant
                    self.wf(),
                    bms == self.bitmaps@,
                    level == self.level,
                    k < level,
                    w <= bms.len(),
                self.bitmaps == old(self).bitmaps,
                self.level == old(self).level,
                    forall|x: int| 0 <= x < k ==> #[trigger] self.b_colon@[x]@ == colon_words(bms),
                    forall|x: int| 0 <= x < k ==> #[trigger] self.b_comma@[x]@ == comma_words(bms),
                    self.b_colon@[k as int]@ == colon_words(bms).subrange(0, w as int),
                    self.b_comma@[k as int]@ == comma_words(bms).subrange(0, w as int),
                    forall|x: int| k < x < level ==> #[trigger] self.b_colon@[x]@.len() == 0,
                    forall|x: int| k < x < level ==> #[trigger] self.b_comma@[x]@.len() == 0,
                decreases bms.len() - w,
            {
                let x = self.bitmaps[w].colon;
                self.b_colon[k].push(x);
                let y = self.bitmaps[w].comma;
                self.b_comma[k].push(y);
                proof {
                    assert(colon_words(bms).subrange(0, w + 1) == colon_words(bms).subrange(0, w as int).push(x));
                    assert(comma_words(bms).subrange(0, w + 1) == comma_words(bms).subrange(0, w as int).push(y));
                }
                w = w + 1;
            }
            proof {
                assert(colon_words(bms).subrange(0, bms.len() as int) == colon_words(bms));
                assert(comma_words(bms).subrange(0, bms.len() as int) == comma_words(bms));
            }
            k = k + 1;
        }
        let mut s: Vec<(usize, u64, bool)> = Vec::new();
        proof {
            assert(levels_match(rows(self.b_colon@), colon_words(bms), Set::empty(), level));
            assert(levels_match(rows(self.b_comma@), comma_words(bms), Set::empty(), level));
            assert(tracks(rows(self.b_colon@), rows(self.b_comma@), s@, bms, level, 0));
        }
        let mut i: usize = 0;
        while i < self.bitmaps.len()
            invariant
                self.wf(),
                bms == self.bitmaps@,
                level == self.level,
                i <= bms.len(),
                tracks(rows(self.b_colon@), rows(self.b_comma@), s@, bms, level, 128 * i),
                self.bitmaps == old(self).bitmaps,
                self.level == old(self).level,
            decreases bms.len() - i,
        {
            let r = self.level_word(&mut s, i, Ghost(bms));
            if r.is_err() {
                proof {
                    lemma_nesting_err(brackets_of(bms), level, 128 * i + 128, 128 * (bms.len() as int));
                }
                return r;
            }
            i = i + 1;
        }
        Ok(())
    }
}

} // verus!

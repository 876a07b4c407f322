//! What the structural index of a record is: which quotes are escaped, which characters
//! stand inside strings, and how braces and brackets nest.
use vstd::prelude::*;
use super::{
    Bitmap, stream, is_char, gbit, backslash_words, quote_words, colon_words, comma_words, COLON,
    COMMA, left_brace_words, right_brace_words, left_bracket_words,
    right_bracket_words, BACKSLASH, QUOTE, LEFT_BRACE, RIGHT_BRACE, LEFT_BRACKET, RIGHT_BRACKET,
};

verus! {

/// The number of consecutive positions set in `bs` that end just before `p`.
pub open spec fn run_before(bs: spec_fn(int) -> bool, p: int) -> nat
    decreases p,
{
    if p <= 0 || !bs(p - 1) {
        0
    } else {
        1 + run_before(bs, p - 1)
    }
}

/// The quotes of `qs` that are not escaped: no odd run of backslashes of `bs` stands just
/// before them.
pub open spec fn unescaped(qs: spec_fn(int) -> bool, bs: spec_fn(int) -> bool) -> spec_fn(
    int,
) -> bool {
    |p: int| qs(p) && run_before(bs, p) % 2 == 0
}

/// The number of positions in `0 .. p` that are set in `f`.
pub open spec fn count_before(f: spec_fn(int) -> bool, p: int) -> nat
    decreases p,
{
    if p <= 0 {
        0
    } else {
        count_before(f, p - 1) + if f(p - 1) {
            1nat
        } else {
            0nat
        }
    }
}

/// Whether position `p` stands inside a string delimited by the quotes `qs`: an odd number
/// of them come before it.
pub open spec fn in_string(qs: spec_fn(int) -> bool, p: int) -> bool {
    count_before(qs, p) % 2 == 1
}

/// The positions of `cs` that stand outside the strings delimited by the quotes `qs`.
pub open spec fn outside_strings(cs: spec_fn(int) -> bool, qs: spec_fn(int) -> bool) -> spec_fn(
    int,
) -> bool {
    |p: int| cs(p) && !in_string(qs, p)
}

/// How braces and brackets nest while a record is read: the ones still open, innermost
/// last, each with its position and whether it is a brace; and the pairs `(k, p)` such that
/// position `p` is removed from the bitmaps of level `k` because it stands inside a pair
/// that is nested too deep for that level.
pub struct Nest {
    pub open: Seq<(int, bool)>,
    pub removed: Set<(int, int)>,
}

/// Why the braces and brackets of a record do not nest.
pub enum NestError {
    /// A brace or bracket closes with nothing open.
    Unopened,
    /// A brace or bracket closes what the other kind opened.
    Mismatched,
}

/// Where braces and brackets open and close.
pub struct Brackets {
    pub left_brace: spec_fn(int) -> bool,
    pub right_brace: spec_fn(int) -> bool,
    pub left_bracket: spec_fn(int) -> bool,
    pub right_bracket: spec_fn(int) -> bool,
}

/// The braces and brackets marked in a sequence of bitmaps.
pub open spec fn brackets_of(bms: Seq<Bitmap>) -> Brackets {
    Brackets {
        left_brace: stream(left_brace_words(bms)),
        right_brace: stream(right_brace_words(bms)),
        left_bracket: stream(left_bracket_words(bms)),
        right_bracket: stream(right_bracket_words(bms)),
    }
}

/// Whether a brace or bracket opens at position `p`.
pub open spec fn opens_at(br: Brackets, p: int) -> bool {
    (br.left_brace)(p) || (br.left_bracket)(p)
}

/// Whether a brace or bracket closes at position `p`.
pub open spec fn closes_at(br: Brackets, p: int) -> bool {
    (br.right_brace)(p) || (br.right_bracket)(p)
}

/// The events of a record are read in order: event `2 * p` is what closes at position
/// `p`, event `2 * p + 1` what opens there.
pub open spec fn nest_event(br: Brackets, e: int) -> bool {
    if e % 2 == 0 {
        closes_at(br, e / 2)
    } else {
        opens_at(br, e / 2)
    }
}

/// The nesting after event `e`, or an error when a brace or bracket closes with nothing
/// open or closes what the other kind opened.
pub open spec fn nest_step(br: Brackets, level: int, st: Nest, e: int) -> Result<Nest, NestError> {
    let p = e / 2;
    if e % 2 == 0 {
        if !closes_at(br, p) {
            Ok(st)
        } else if st.open.len() == 0 {
            Err(NestError::Unopened)
        } else if st.open.last().1 != (br.right_brace)(p) {
            Err(NestError::Mismatched)
        } else {
            let rest = st.open.drop_last();
            let l = st.open.last().0;
            if rest.len() > 0 && rest.len() - 1 < level {
                let k = rest.len() - 1;
                Ok(
                    Nest {
                        open: rest,
                        removed: st.removed.union(
                            Set::new(|kq: (int, int)| kq.0 == k && l <= kq.1 < p),
                        ),
                    },
                )
            } else {
                Ok(Nest { open: rest, removed: st.removed })
            }
        }
    } else if opens_at(br, p) {
        Ok(Nest { open: st.open.push((p, (br.left_brace)(p))), removed: st.removed })
    } else {
        Ok(st)
    }
}

/// The nesting after the events before `e`.
pub open spec fn nesting(br: Brackets, level: int, e: int) -> Result<Nest, NestError>
    decreases e,
{
    if e <= 0 {
        Ok(Nest { open: Seq::empty(), removed: Set::empty() })
    } else {
        match nesting(br, level, e - 1) {
            Ok(st) => nest_step(br, level, st, e - 1),
            Err(err) => Err(err),
        }
    }
}

/// The nesting after all the events of the bitmaps.
pub open spec fn leveled(bms: Seq<Bitmap>, level: int) -> Result<Nest, NestError> {
    nesting(brackets_of(bms), level, 128 * (bms.len() as int))
}

/// Once the nesting fails, it stays failed, for the same reason.
pub proof fn lemma_nesting_err(br: Brackets, level: int, e1: int, e2: int)
    requires
        0 <= e1 <= e2,
        nesting(br, level, e1) is Err,
    ensures
        nesting(br, level, e2) == nesting(br, level, e1),
    decreases e2 - e1,
{
    if e1 < e2 {
        lemma_nesting_err(br, level, e1, e2 - 1);
    }
}

/// Events at which nothing opens or closes leave the nesting as it was.
pub proof fn lemma_nesting_skip(br: Brackets, level: int, e1: int, e2: int)
    requires
        0 <= e1 <= e2,
        forall|e: int| e1 <= e < e2 ==> !#[trigger] nest_event(br, e),
    ensures
        nesting(br, level, e2) == nesting(br, level, e1),
    decreases e2 - e1,
{
    if e1 < e2 {
        lemma_nesting_skip(br, level, e1, e2 - 1);
        assert(!nest_event(br, e2 - 1));
    }
}

/// The quotes of the bytes `s` that delimit strings: those not escaped by a backslash.
pub open spec fn structural_quotes(s: Seq<u8>) -> spec_fn(int) -> bool {
    unescaped(is_char(s, QUOTE), is_char(s, BACKSLASH))
}

/// The bytes `c` of `s` that stand outside strings.
pub open spec fn structural(s: Seq<u8>, c: u8) -> spec_fn(int) -> bool {
    outside_strings(is_char(s, c), structural_quotes(s))
}

/// The braces and brackets of the bytes `s` that stand outside strings.
pub open spec fn record_brackets(s: Seq<u8>) -> Brackets {
    Brackets {
        left_brace: structural(s, LEFT_BRACE),
        right_brace: structural(s, RIGHT_BRACE),
        left_bracket: structural(s, LEFT_BRACKET),
        right_bracket: structural(s, RIGHT_BRACKET),
    }
}

/// The nesting of the braces and brackets of the bytes `s`.
pub open spec fn record_nesting(s: Seq<u8>, level: int) -> Result<Nest, NestError> {
    nesting(record_brackets(s), level, 2 * (s.len() as int))
}

/// Whether the quotes of `s` pair up and its braces and brackets close in order, each by
/// its own kind.
pub open spec fn record_ok(s: Seq<u8>, level: int) -> bool {
    &&& count_before(structural_quotes(s), s.len() as int) % 2 == 0
    &&& record_nesting(s, level) is Ok
}

/// The number of words of 64 bytes that hold `len` bytes.
pub open spec fn word_count(len: int) -> int {
    len / 64 + if len % 64 != 0 {
        1int
    } else {
        0int
    }
}

/// Whether the rows of each level hold the positions of `f` in `n` words, except for the
/// positions removed at that level.
pub open spec fn levels_of(
    rows: Seq<Seq<u64>>,
    f: spec_fn(int) -> bool,
    n: int,
    removed: Set<(int, int)>,
    level: int,
) -> bool {
    &&& rows.len() == level
    &&& forall|k: int| 0 <= k < level ==> (#[trigger] rows[k]).len() == n
    &&& forall|k: int, p: int|
        0 <= k < level ==> #[trigger] gbit(rows[k], p) == (f(p) && !removed.contains((k, p)))
}

/// Whether `bitmaps`, `b_colon` and `b_comma` are the structural index of the bytes `s` with
/// `level` levels: the character bitmaps of `s` with the escaped quotes and the characters
/// inside strings removed, and for each level `k` the structural colons and commas without
/// those that stand inside a pair of braces or brackets nested deeper than `k + 1`.
pub open spec fn is_index_of(
    bitmaps: Seq<Bitmap>,
    b_colon: Seq<Seq<u64>>,
    b_comma: Seq<Seq<u64>>,
    s: Seq<u8>,
    level: int,
) -> bool {
    &&& bitmaps.len() == word_count(s.len() as int)
    &&& forall|p: int| #[trigger] gbit(backslash_words(bitmaps), p) == is_char(s, BACKSLASH)(p)
    &&& forall|p: int| #[trigger] gbit(quote_words(bitmaps), p) == structural_quotes(s)(p)
    &&& forall|p: int| #[trigger] gbit(colon_words(bitmaps), p) == structural(s, COLON)(p)
    &&& forall|p: int| #[trigger] gbit(comma_words(bitmaps), p) == structural(s, COMMA)(p)
    &&& forall|p: int|
        #[trigger] gbit(left_brace_words(bitmaps), p) == structural(s, LEFT_BRACE)(p)
    &&& forall|p: int|
        #[trigger] gbit(right_brace_words(bitmaps), p) == structural(s, RIGHT_BRACE)(p)
    &&& forall|p: int|
        #[trigger] gbit(left_bracket_words(bitmaps), p) == structural(s, LEFT_BRACKET)(p)
    &&& forall|p: int|
        #[trigger] gbit(right_bracket_words(bitmaps), p) == structural(s, RIGHT_BRACKET)(p)
    &&& record_nesting(s, level) is Ok
    &&& levels_of(
        b_colon,
        structural(s, COLON),
        word_count(s.len() as int),
        record_nesting(s, level)->Ok_0.removed,
        level,
    )
    &&& levels_of(
        b_comma,
        structural(s, COMMA),
        word_count(s.len() as int),
        record_nesting(s, level)->Ok_0.removed,
        level,
    )
}

/// Where braces or brackets open.
pub open spec fn opens_of(br: Brackets) -> spec_fn(int) -> bool {
    |p: int| opens_at(br, p)
}

/// Where braces or brackets close.
pub open spec fn closes_of(br: Brackets) -> spec_fn(int) -> bool {
    |p: int| closes_at(br, p)
}

/// The nesting depth at position `p`: how many braces and brackets open before it, less
/// how many close before it.
pub open spec fn depth(br: Brackets, p: int) -> int {
    count_before(opens_of(br), p) - count_before(closes_of(br), p)
}

/// Whether every brace and bracket of `s` is closed, in order, by one of its own kind.
pub open spec fn balanced(s: Seq<u8>) -> bool {
    &&& record_nesting(s, 0) is Ok
    &&& record_nesting(s, 0)->Ok_0.open.len() == 0
}

/// The shape of the nesting before event `e`: as many frames are open as braces and
/// brackets opened less those closed; each frame opened, and each removed position stands,
/// before `e`.
pub(crate) proof fn lemma_nesting_shape(br: Brackets, level: int, e: int)
    requires
        e >= 0,
        nesting(br, level, e) is Ok,
    ensures
        nesting(br, level, e)->Ok_0.open.len() == count_before(opens_of(br), e / 2) - count_before(
            closes_of(br),
            (e + 1) / 2,
        ),
        forall|i: int|
            0 <= i < nesting(br, level, e)->Ok_0.open.len() ==> 0 <= 2 * (#[trigger] nesting(
                br,
                level,
                e,
            )->Ok_0.open[i]).0 + 1 < e,
        forall|kq: (int, int)| #[trigger]
            nesting(br, level, e)->Ok_0.removed.contains(kq) ==> 2 * kq.1 + 2 < e,
    decreases e,
{
    if e > 0 {
        let prev = nesting(br, level, e - 1);
        assert(prev is Ok);
        lemma_nesting_shape(br, level, e - 1);
        let st = prev->Ok_0;
        let q = (e - 1) / 2;
        if (e - 1) % 2 == 0 {
            assert(e / 2 == q && (e + 1) / 2 == q + 1 && (e - 1 + 1) / 2 == q);
            assert(count_before(closes_of(br), q + 1) == count_before(closes_of(br), q) + if closes_of(br)(q) { 1nat } else { 0nat });
            if closes_at(br, q) {
                let cur = nesting(br, level, e)->Ok_0;
                assert(cur.open =~= st.open.drop_last());
                assert forall|i: int| 0 <= i < cur.open.len() implies 0 <= 2 * (#[trigger] cur.open[i]).0 + 1 < e by {
                    assert(cur.open[i] == st.open[i]);
                }
                assert forall|kq: (int, int)| #[trigger] cur.removed.contains(kq) implies 2 * kq.1 + 2 < e by {
                    if !st.removed.contains(kq) {
                        assert(st.open[st.open.len() - 1].0 <= kq.1 < q);
                    }
                }
            }
        } else {
            assert(e / 2 == q + 1 && (e + 1) / 2 == q + 1 && (e - 1) / 2 == q && e / 2 - 1 == q);
            assert(count_before(opens_of(br), q + 1) == count_before(opens_of(br), q) + if opens_of(br)(q) { 1nat } else { 0nat });
            if opens_at(br, q) {
                let cur = nesting(br, level, e)->Ok_0;
                assert forall|i: int| 0 <= i < cur.open.len() implies 0 <= 2 * (#[trigger] cur.open[i]).0 + 1 < e by {
                    if i < st.open.len() {
                        assert(cur.open[i] == st.open[i]);
                    }
                }
            }
        }
    }
}

/// Follows the frames that were open at position `p`, where nothing opens or closes: the
/// first `m` of them are still open before event `e`, every frame opened since stands after
/// `p`, and `p` has been removed exactly at the levels of the frames closed since.
pub(crate) proof fn lemma_since(br: Brackets, level: int, p: int, e: int) -> (m: int)
    requires
        p >= 0,
        !opens_at(br, p),
        !closes_at(br, p),
        e >= 2 * p + 1,
        nesting(br, level, e) is Ok,
    ensures
        nesting(br, level, 2 * p + 1) is Ok,
        0 <= m <= nesting(br, level, 2 * p + 1)->Ok_0.open.len(),
        m <= nesting(br, level, e)->Ok_0.open.len(),
        forall|i: int|
            0 <= i < m ==> #[trigger] nesting(br, level, e)->Ok_0.open[i] == nesting(
                br,
                level,
                2 * p + 1,
            )->Ok_0.open[i],
        forall|i: int|
            m <= i < nesting(br, level, e)->Ok_0.open.len() ==> (#[trigger] nesting(
                br,
                level,
                e,
            )->Ok_0.open[i]).0 > p,
        forall|k: int|
            #[trigger] nesting(br, level, e)->Ok_0.removed.contains((k, p)) <==> (m <= k + 1
                < nesting(br, level, 2 * p + 1)->Ok_0.open.len() && 0 <= k < level),
    decreases e,
{
    let sn = nesting(br, level, 2 * p + 1);
    if sn is Err {
        lemma_nesting_err(br, level, 2 * p + 1, e);
    }
    let ss = sn->Ok_0.open;
    if e == 2 * p + 1 {
        lemma_nesting_shape(br, level, e);
        assert forall|k: int| #[trigger] sn->Ok_0.removed.contains((k, p)) implies false by {
            assert(2 * (k, p).1 + 2 < e);
        }
        ss.len() as int
    } else {
        if nesting(br, level, e - 1) is Err {
            lemma_nesting_err(br, level, e - 1, e);
        }
        let m0 = lemma_since(br, level, p, e - 1);
        lemma_nesting_shape(br, level, 2 * p + 1);
        let st = nesting(br, level, e - 1)->Ok_0;
        let cur = nesting(br, level, e)->Ok_0;
        let q = (e - 1) / 2;
        assert(q >= p);
        if (e - 1) % 2 == 0 && closes_at(br, q) {
            assert(q > p);
            let top = st.open.last();
            assert(st.open[st.open.len() - 1] == top);
            let m = if st.open.len() > m0 {
                m0
            } else {
                m0 - 1
            };
            assert(cur.open =~= st.open.drop_last());
            assert forall|i: int| 0 <= i < m implies #[trigger] cur.open[i] == ss[i] by {
                assert(cur.open[i] == st.open[i]);
            }
            assert forall|i: int| m <= i < cur.open.len() implies (#[trigger] cur.open[i]).0 > p by {
                assert(cur.open[i] == st.open[i]);
            }
            if st.open.len() == m0 {
                assert(top == ss[m0 - 1]);
                assert(0 <= 2 * ss[m0 - 1].0 + 1 < 2 * p + 1);
            }
            assert forall|k: int| #[trigger] cur.removed.contains((k, p)) <==> (m <= k + 1
                < ss.len() && 0 <= k < level) by {
                assert(st.removed.contains((k, p)) <==> (m0 <= k + 1 < ss.len() && 0 <= k < level));
            }
            m
        } else if (e - 1) % 2 == 1 && opens_at(br, q) {
            assert(q > p);
            assert forall|i: int| 0 <= i < m0 implies #[trigger] cur.open[i] == ss[i] by {
                assert(cur.open[i] == st.open[i]);
            }
            assert forall|i: int| m0 <= i < cur.open.len() implies (#[trigger] cur.open[i]).0 > p by {
                if i < st.open.len() {
                    assert(cur.open[i] == st.open[i]);
                }
            }
            assert forall|k: int| #[trigger] cur.removed.contains((k, p)) <==> (m0 <= k + 1
                < ss.len() && 0 <= k < level) by {
                assert(st.removed.contains((k, p)) <==> (m0 <= k + 1 < ss.len() && 0 <= k < level));
            }
            m0
        } else {
            assert(cur == st);
            m0
        }
    }
}

/// Which frames are open, and whether the nesting fails, does not depend on the number of
/// levels.
pub(crate) proof fn lemma_level_free(br: Brackets, l1: int, l2: int, e: int)
    ensures
        nesting(br, l1, e) is Ok <==> nesting(br, l2, e) is Ok,
        nesting(br, l1, e) is Ok ==> nesting(br, l1, e)->Ok_0.open == nesting(br, l2, e)->Ok_0.open,
        nesting(br, l1, e) is Err ==> nesting(br, l1, e) == nesting(br, l2, e),
    decreases e,
{
    if e > 0 {
        lemma_level_free(br, l1, l2, e - 1);
    }
}

} // verus!

//! Single-word bit manipulation used by the index builder.
use vstd::prelude::*;
use vstd::std_specs::bits::{
    u64_trailing_zeros, axiom_u64_trailing_zeros, u64_leading_zeros, axiom_u64_leading_zeros,
};

verus! {

/// Whether bit `b` of `x` is set; positions outside `0..64` are never set.
pub open spec fn bit(x: u64, b: int) -> bool {
    0 <= b < 64 && (x >> (b as u64)) & 1u64 == 1u64
}

/// The position of the lowest set bit of `x`, or 64 when `x` is zero.
pub open spec fn lowest(x: u64) -> int {
    u64_trailing_zeros(x) as int
}

proof fn lemma_ops_u64(x: u64, y: u64, b: u64)
    by (bit_vector)
    requires
        b < 64,
    ensures
        (((x & y) >> b) & 1u64 == 1u64) <==> (((x >> b) & 1u64 == 1u64) && ((y >> b) & 1u64
            == 1u64)),
        (((x | y) >> b) & 1u64 == 1u64) <==> (((x >> b) & 1u64 == 1u64) || ((y >> b) & 1u64
            == 1u64)),
        (((x ^ y) >> b) & 1u64 == 1u64) <==> (((x >> b) & 1u64 == 1u64) != ((y >> b) & 1u64
            == 1u64)),
        (((!x) >> b) & 1u64 == 1u64) <==> !((x >> b) & 1u64 == 1u64),
        ((0u64 >> b) & 1u64 != 1u64),
        ((0xffff_ffff_ffff_ffffu64 >> b) & 1u64 == 1u64),
{
}

proof fn lemma_shift_u64(t: u64, c: u64, b: u64)
    by (bit_vector)
    requires
        t < 64,
        c < 64,
        b < 64,
    ensures
        (((1u64 << t) >> b) & 1u64 == 1u64) <==> b == t,
        (1u64 << t) < (1u64 << c) <==> t < c,
        (1u64 << t) >= 1u64,
{
}

proof fn lemma_mask_u64(t: u64, b: u64, m: u64)
    by (bit_vector)
    requires
        t < 64,
        b < 64,
        m == (1u64 << t) - 1u64,
    ensures
        ((m >> b) & 1u64 == 1u64) <==> b < t,
{
}

proof fn lemma_shifts_u64(x: u64, b: u64, c: u64)
    by (bit_vector)
    requires
        b < 64,
        c == b + 1,
    ensures
        (((x >> 1u64) >> b) & 1u64 == 1u64) <==> (b < 63 && ((x >> c) & 1u64 == 1u64)),
        (((x << 63u64) >> b) & 1u64 == 1u64) <==> (b == 63 && (x & 1u64 == 1u64)),
        (((x >> 63u64) >> b) & 1u64 == 1u64) <==> (b == 0 && ((x >> 63u64) & 1u64 == 1u64)),
        (((x << 1u64) >> c) & 1u64 == 1u64) <==> (c < 64 && ((x >> b) & 1u64 == 1u64)),
        (((x << 1u64) >> 0u64) & 1u64) != 1u64,
        (x >> 0u64) == x,
{
}

/// Shifting a word by one or by 63 positions moves its bits accordingly.
pub proof fn lemma_bit_shift(x: u64, b: int)
    ensures
        bit(x >> 1u64, b) <==> (0 <= b < 63 && bit(x, b + 1)),
        bit(x << 63u64, b) <==> (b == 63 && bit(x, 0)),
        bit(x >> 63u64, b) <==> (b == 0 && bit(x, 63)),
        bit(x << 1u64, b) <==> (1 <= b < 64 && bit(x, b - 1)),
{
    lemma_shifts_u64(x, 0, 1);
    if 0 <= b < 64 {
        lemma_shifts_u64(x, b as u64, (b + 1) as u64);
    }
    if 1 <= b < 64 {
        lemma_shifts_u64(x, (b - 1) as u64, b as u64);
    }
}

proof fn lemma_clear_u64(x: u64, t: u64)
    by (bit_vector)
    requires
        t < 64,
        (x >> t) & 1u64 == 1u64,
    ensures
        x ^ (1u64 << t) < x,
{
}

/// Clearing a set bit makes a word smaller.
pub proof fn lemma_clear_smaller(x: u64, t: u64)
    requires
        t < 64,
        bit(x, t as int),
    ensures
        x ^ (1u64 << t) < x,
{
    lemma_clear_u64(x, t);
}

proof fn lemma_lz_u64(t: u64, lz: u64)
    by (bit_vector)
    requires
        t < 64,
        lz < 64,
        ((1u64 << t) >> ((63 - lz) as u64)) & 1u64 != 0u64,
    ensures
        lz == 63 - t,
{
}

/// A single-bit word `1 << t` has `63 - t` leading zeros.
pub proof fn lemma_single_leading_zeros(t: u64)
    requires
        t < 64,
    ensures
        u64_leading_zeros(1u64 << t) == 63 - t,
{
    lemma_shift_u64(t, t, 0);
    axiom_u64_leading_zeros(1u64 << t);
    lemma_lz_u64(t, u64_leading_zeros(1u64 << t) as u64);
}

proof fn lemma_span_u64(a: u64, c: u64, b: u64, m: u64)
    by (bit_vector)
    requires
        a < c,
        c < 64,
        b < 64,
        m == (1u64 << c) - (1u64 << a),
    ensures
        ((m >> b) & 1u64 == 1u64) <==> (a <= b && b < c),
{
}

/// The difference `(1 << c) - (1 << a)` holds the bits from `a` up to `c`.
pub proof fn lemma_bit_span(a: u64, c: u64, b: int)
    requires
        a < c < 64,
    ensures
        (1u64 << a) < (1u64 << c),
        bit(((1u64 << c) - (1u64 << a)) as u64, b) <==> (a <= b < c),
{
    lemma_shift_u64(a, c, 0);
    if 0 <= b < 64 {
        lemma_span_u64(a, c, b as u64, ((1u64 << c) - (1u64 << a)) as u64);
    }
}

proof fn lemma_test_u64(x: u64, a: u64)
    by (bit_vector)
    requires
        a < 64,
    ensures
        ((x & (1u64 << a)) != 0u64) <==> ((x >> a) & 1u64 == 1u64),
        (((1u64 << a) & x) != 0u64) <==> ((x >> a) & 1u64 == 1u64),
{
}

/// Masking with a single-bit word tests that bit.
pub proof fn lemma_bit_test(x: u64, a: u64)
    requires
        a < 64,
    ensures
        ((x & (1u64 << a)) != 0u64) == bit(x, a as int),
        (((1u64 << a) & x) != 0u64) == bit(x, a as int),
{
    lemma_test_u64(x, a);
}

proof fn lemma_xor_zero_u64(x: u64, y: u64)
    by (bit_vector)
    requires
        x ^ y == 0u64,
    ensures
        x == y,
{
}

/// A word is determined by its bits.
pub proof fn lemma_bits_determine(x: u64, y: u64)
    requires
        forall|b: int| 0 <= b < 64 ==> #[trigger] bit(x, b) == bit(y, b),
    ensures
        x == y,
{
    let z = x ^ y;
    lemma_lowest(z);
    if z != 0 {
        let t = lowest(z);
        lemma_ops_u64(x, y, t as u64);
        assert(bit(x, t) == bit(y, t));
    }
    lemma_xor_zero_u64(x, y);
}

/// Bitwise `&` acts on each bit.
pub broadcast proof fn lemma_bit_and(x: u64, y: u64, b: int)
    ensures
        #[trigger] bit(x & y, b) <==> (bit(x, b) && bit(y, b)),
{
    if 0 <= b < 64 {
        lemma_ops_u64(x, y, b as u64);
    }
}

/// Bitwise `|` acts on each bit.
pub broadcast proof fn lemma_bit_or(x: u64, y: u64, b: int)
    ensures
        #[trigger] bit(x | y, b) <==> (bit(x, b) || bit(y, b)),
{
    if 0 <= b < 64 {
        lemma_ops_u64(x, y, b as u64);
    }
}

/// Bitwise `^` acts on each bit.
pub broadcast proof fn lemma_bit_xor(x: u64, y: u64, b: int)
    ensures
        #[trigger] bit(x ^ y, b) <==> (0 <= b < 64 && bit(x, b) != bit(y, b)),
{
    if 0 <= b < 64 {
        lemma_ops_u64(x, y, b as u64);
    }
}

/// Bitwise `!` flips each bit.
pub broadcast proof fn lemma_bit_not(x: u64, b: int)
    ensures
        #[trigger] bit(!x, b) <==> (0 <= b < 64 && !bit(x, b)),
{
    if 0 <= b < 64 {
        lemma_ops_u64(x, x, b as u64);
    }
}

/// No bit of zero is set, and every bit of the all-ones word is.
pub broadcast proof fn lemma_bit_constants(b: int)
    ensures
        !#[trigger] bit(0u64, b),
        bit(0xffff_ffff_ffff_ffffu64, b) <==> 0 <= b < 64,
{
    if 0 <= b < 64 {
        lemma_ops_u64(0, 0, b as u64);
    }
}

/// The single-bit word `1 << t` and the mask `(1 << t) - 1` of the bits below it.
pub broadcast proof fn lemma_bit_single(t: u64, b: int)
    requires
        t < 64,
    ensures
        #[trigger] bit(1u64 << t, b) <==> b == t,
        bit(((1u64 << t) - 1u64) as u64, b) <==> 0 <= b < t,
        (1u64 << t) != 0u64,
{
    lemma_shift_u64(t, t, 0);
    if 0 <= b < 64 {
        lemma_shift_u64(t, t, b as u64);
        lemma_mask_u64(t, b as u64, ((1u64 << t) - 1u64) as u64);
    }
}

/// Single-bit words compare as their positions do.
pub proof fn lemma_single_order(t: u64, c: u64)
    requires
        t < 64,
        c < 64,
    ensures
        (1u64 << t) < (1u64 << c) <==> t < c,
        (1u64 << t) == (1u64 << c) <==> t == c,
{
    lemma_shift_u64(t, c, 0);
    lemma_shift_u64(c, t, 0);
}

/// The lowest set bit of a word is set, and no bit below it is.
pub proof fn lemma_lowest(x: u64)
    ensures
        0 <= lowest(x) <= 64,
        x == 0 <==> lowest(x) == 64,
        x != 0 ==> bit(x, lowest(x)),
        forall|b: int| 0 <= b < lowest(x) ==> !#[trigger] bit(x, b),
{
    axiom_u64_trailing_zeros(x);
    assert forall|b: int| 0 <= b < lowest(x) implies !#[trigger] bit(x, b) by {
        let j = b as u64;
        assert((x >> j) & 1u64 == 0u64);
    }
}

/// The number of consecutive set bits of `x` found by walking down from bit `pos - 1`.
pub open spec fn ones_below(x: u64, pos: int) -> nat
    decreases pos,
{
    if pos <= 0 || !bit(x, pos - 1) {
        0
    } else {
        1 + ones_below(x, pos - 1)
    }
}

/// The lowest set bit of `x` on its own; zero when `x` is zero.
#[allow(non_snake_case)]
pub fn E(x: u64) -> (r: u64)
    ensures
        x == 0 ==> r == 0,
        x != 0 ==> r == 1u64 << (lowest(x) as u64),
        forall|b: int| #[trigger] bit(r, b) <==> (x != 0 && b == lowest(x)),
{
    proof {
        lemma_lowest(x);
    }
    if x == 0 {
        proof {
            broadcast use lemma_bit_constants;
        }
        0
    } else {
        let t: u32 = x.trailing_zeros();
        let r: u64 = 1u64 << t;
        proof {
            assert forall|b: int| #[trigger] bit(r, b) <==> b == lowest(x) by {
                lemma_bit_single(t as u64, b);
            }
        }
        r
    }
}

/// `x` with its lowest set bit removed.
#[allow(non_snake_case)]
pub fn R(x: u64) -> (r: u64)
    ensures
        forall|b: int| #[trigger] bit(r, b) <==> (bit(x, b) && b != lowest(x)),
        x != 0 ==> r < x,
{
    proof {
        lemma_lowest(x);
        broadcast use group_bit;
    }
    let e = E(x);
    proof {
        if x != 0 {
            lemma_clear_smaller(x, lowest(x) as u64);
        }
    }
    x ^ e
}

/// The bits from bit zero up to and including the lowest set bit of `x`; all bits when
/// `x` is zero.
#[allow(non_snake_case)]
pub fn S(x: u64) -> (r: u64)
    ensures
        forall|b: int| #[trigger] bit(r, b) <==> (0 <= b < 64 && b <= lowest(x)),
{
    proof {
        lemma_lowest(x);
        broadcast use group_bit;
    }
    if x == 0 {
        !0u64
    } else {
        let e = E(x);
        let t: u64 = x.trailing_zeros() as u64;
        proof {
            lemma_bit_single(t, 0);
        }
        let m = e - 1;
        proof {
            assert forall|b: int| #[trigger] bit(e | m, b) <==> (0 <= b < 64 && b <= lowest(x)) by {
                lemma_bit_single(t, b);
            }
        }
        e | m
    }
}

/// The number of consecutive set bits of `x` starting at bit `pos - 1` and going down.
pub fn leading_ones(x: u64, pos: u32) -> (r: u32)
    requires
        pos <= 64,
    ensures
        r == ones_below(x, pos as int),
        r <= pos,
{
    let mut n: u32 = 0;
    while n < pos && (x >> ((pos - 1 - n) as u64)) & 1u64 == 1u64
        invariant
            n <= pos <= 64,
            ones_below(x, pos as int) == n + ones_below(x, pos - n),
        decreases pos - n,
    {
        proof {
            assert(bit(x, pos - n - 1));
        }
        n = n + 1;
    }
    proof {
        if n < pos {
            assert(!bit(x, pos - n - 1));
        }
    }
    n
}

pub broadcast group group_bit {
    lemma_bit_and,
    lemma_bit_or,
    lemma_bit_xor,
    lemma_bit_not,
    lemma_bit_constants,
}

} // verus!

//! The structure of a record read directly off its bytes: which quotes delimit strings,
//! which characters stand outside strings, how deep each position is nested, and which
//! records are well formed. Every definition here speaks of bytes and counts alone.
use vstd::prelude::*;

verus! {

/// The number of positions `q` in `0 .. p` for which `f(q)` holds.
pub open spec fn how_many(f: spec_fn(int) -> bool, p: int) -> nat {
    if p <= 0 {
        0
    } else {
        Seq::new(p as nat, |q: int| q).filter(f).len()
    }
}

/// Whether byte `p` of `s` is `c`.
pub open spec fn byte_at(s: Seq<u8>, p: int, c: u8) -> bool {
    0 <= p < s.len() && s[p] == c
}

/// Whether exactly `k` backslashes stand just before position `p`: the bytes `p - k .. p`
/// are backslashes and the byte before them, if any, is not.
pub open spec fn backslash_run(s: Seq<u8>, p: int, k: int) -> bool {
    &&& 0 <= k <= p
    &&& forall|j: int| p - k <= j < p ==> #[trigger] s[j] == 0x5cu8
    &&& (k == p || s[p - k - 1] != 0x5cu8)
}

/// Whether byte `p` is a quote that delimits a string: a quote not escaped, that is, the
/// run of backslashes just before it has an even length.
pub open spec fn delimits(s: Seq<u8>, p: int) -> bool {
    &&& byte_at(s, p, 0x22u8)
    &&& forall|k: int| #[trigger] backslash_run(s, p, k) ==> k % 2 == 0
}

/// The delimiting quotes of `s`.
pub open spec fn delimiters(s: Seq<u8>) -> spec_fn(int) -> bool {
    |q: int| delimits(s, q)
}

/// Whether position `p` stands inside a string: an odd number of delimiting quotes come
/// before it.
pub open spec fn inside_string(s: Seq<u8>, p: int) -> bool {
    how_many(delimiters(s), p) % 2 == 1
}

/// Whether byte `p` is `c` and stands outside every string.
pub open spec fn structural_at(s: Seq<u8>, p: int, c: u8) -> bool {
    byte_at(s, p, c) && !inside_string(s, p)
}

/// Whether a brace or bracket opens at `p`, outside strings.
pub open spec fn opening(s: Seq<u8>, p: int) -> bool {
    structural_at(s, p, 0x7bu8) || structural_at(s, p, 0x5bu8)
}

/// Whether a brace or bracket closes at `p`, outside strings.
pub open spec fn closing(s: Seq<u8>, p: int) -> bool {
    structural_at(s, p, 0x7du8) || structural_at(s, p, 0x5du8)
}

/// The nesting depth at `p`: the braces and brackets opened before it, less those closed
/// before it.
pub open spec fn level_at(s: Seq<u8>, p: int) -> int {
    how_many(|q: int| opening(s, q), p) - how_many(|q: int| closing(s, q), p)
}

/// Whether the brace or bracket that closes at `p` closes the one that opened at `q`: the
/// last opening before `p` at one level less than `p`.
pub open spec fn matches_open(s: Seq<u8>, p: int, q: int) -> bool {
    &&& 0 <= q < p
    &&& opening(s, q)
    &&& level_at(s, q) == level_at(s, p) - 1
    &&& forall|r: int| q < r < p && #[trigger] opening(s, r) ==> level_at(s, r) != level_at(s, p) - 1
}

/// Whether what closes at `p` closes something, and something of its own kind: a `}` a
/// `{`, a `]` a `[`.
pub open spec fn closes_own_kind(s: Seq<u8>, p: int) -> bool {
    &&& level_at(s, p) >= 1
    &&& exists|q: int| #[trigger] matches_open(s, p, q) && (s[q] == 0x7bu8 <==> s[p] == 0x7du8)
}

/// Whether a record is well formed: its delimiting quotes pair up, and every brace and
/// bracket outside strings that closes, closes one of its own kind.
pub open spec fn well_formed(s: Seq<u8>) -> bool {
    &&& how_many(delimiters(s), s.len() as int) % 2 == 0
    &&& forall|p: int| #[trigger] closing(s, p) ==> closes_own_kind(s, p)
}

/// Whether `p` is the first brace or bracket, outside strings, that does not close one of
/// its own kind.
pub open spec fn first_bad_close(s: Seq<u8>, p: int) -> bool {
    &&& closing(s, p)
    &&& !closes_own_kind(s, p)
    &&& forall|r: int| 0 <= r < p && #[trigger] closing(s, r) ==> closes_own_kind(s, r)
}

} // verus!

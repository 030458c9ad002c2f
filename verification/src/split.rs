//! Splitting a key into the index of its cluster and its position inside the
//! cluster, and the width of the clusters that a universe is cut into.

use vstd::arithmetic::div_mod::lemma_fundamental_div_mod_converse;
use vstd::arithmetic::power2::{is_pow2, pow2};
use vstd::bits::{lemma_u64_pow2_no_overflow, lemma_u64_shl_is_mul};
use vstd::prelude::*;
use vstd::std_specs::bits::{axiom_u64_trailing_zeros, u64_trailing_zeros};

verus! {

/// Index of the cluster that key `x` falls into when clusters are `w` wide.
pub open spec fn high(x: int, w: int) -> int {
    x / w
}

/// Position of key `x` inside its cluster when clusters are `w` wide.
pub open spec fn low(x: int, w: int) -> int {
    x % w
}

/// The key at position `j` of cluster `i` when clusters are `w` wide.
pub open spec fn index(i: int, j: int, w: int) -> int {
    i * w + j
}

/// `r` is the cluster width of universe `u`: the least power of two, at least
/// two, whose square covers `u`.
pub open spec fn is_upper_root(r: int, u: int) -> bool {
    &&& is_pow2(r)
    &&& r >= 2
    &&& r * r >= u
    &&& (r == 2 || (r / 2) * (r / 2) < u)
}

/// Splitting a key and joining the parts gives the key back.
pub proof fn lemma_split(x: int, w: int)
    requires
        w > 0,
    ensures
        index(high(x, w), low(x, w), w) == x,
        0 <= low(x, w) < w,
        x >= 0 ==> high(x, w) >= 0,
        x < 0 ==> high(x, w) < 0,
{
    assert(x == (x / w) * w + x % w && 0 <= x % w < w && (x >= 0 ==> x / w >= 0) && (x < 0 ==> x
        / w < 0)) by (nonlinear_arith)
        requires
            w > 0,
    ;
}

/// Joining a cluster index and a position and splitting the key gives both back.
pub proof fn lemma_join(i: int, j: int, w: int)
    requires
        w > 0,
        0 <= j < w,
    ensures
        high(index(i, j, w), w) == i,
        low(index(i, j, w), w) == j,
{
    lemma_fundamental_div_mod_converse(i * w + j, w, i, j);
}

/// Keys are ordered first by cluster, then by position.
pub proof fn lemma_index_order(i1: int, j1: int, i2: int, j2: int, w: int)
    requires
        w > 0,
        0 <= j1 < w,
        0 <= j2 < w,
    ensures
        index(i1, j1, w) < index(i2, j2, w) <==> (i1 < i2 || (i1 == i2 && j1 < j2)),
        index(i1, j1, w) == index(i2, j2, w) <==> (i1 == i2 && j1 == j2),
{
    assert(i1 < i2 ==> i1 * w + j1 < i2 * w + j2) by (nonlinear_arith)
        requires
            w > 0,
            0 <= j1 < w,
            0 <= j2 < w,
    ;
    assert(i2 < i1 ==> i2 * w + j2 < i1 * w + j1) by (nonlinear_arith)
        requires
            w > 0,
            0 <= j1 < w,
            0 <= j2 < w,
    ;
}

/// The order of two keys, read off their parts.
pub proof fn lemma_key_order(x: int, y: int, w: int)
    requires
        w > 0,
    ensures
        x < y <==> (high(x, w) < high(y, w) || (high(x, w) == high(y, w) && low(x, w) < low(
            y,
            w,
        ))),
        x == y <==> (high(x, w) == high(y, w) && low(x, w) == low(y, w)),
{
    lemma_split(x, w);
    lemma_split(y, w);
    lemma_index_order(high(x, w), low(x, w), high(y, w), low(y, w), w);
}

/// Keys below the square of the width fall into clusters below the width.
pub proof fn lemma_high_bound(x: int, w: int)
    requires
        w > 0,
        0 <= x < w * w,
    ensures
        0 <= high(x, w) < w,
{
    lemma_split(x, w);
    assert(x / w < w) by (nonlinear_arith)
        requires
            w > 0,
            x < w * w,
            x == (x / w) * w + x % w,
            0 <= x % w,
    ;
}

/// A universe above two is cut into clusters narrower than itself.
pub proof fn lemma_upper_root_below(r: int, u: int)
    requires
        is_upper_root(r, u),
        u > 2,
    ensures
        r < u,
{
    if r != 2 {
        reveal(is_pow2);
        let h = r / 2;
        assert(2 * h <= h * h) by (nonlinear_arith)
            requires
                h >= 2,
        ;
    }
}

/// Of two distinct powers of two, the larger is at least twice the smaller.
pub proof fn lemma_pow2_gap(a: int, b: int)
    requires
        is_pow2(a),
        is_pow2(b),
        a < b,
    ensures
        2 * a <= b,
    decreases b,
{
    reveal(is_pow2);
    if a > 1 {
        lemma_pow2_gap(a / 2, b / 2);
    }
}

/// A universe has exactly one cluster width.
pub proof fn lemma_upper_root_unique(r1: int, r2: int, u: int)
    requires
        is_upper_root(r1, u),
        is_upper_root(r2, u),
    ensures
        r1 == r2,
{
    if r1 < r2 {
        lemma_pow2_gap(r1, r2);
        assert(r1 * r1 <= (r2 / 2) * (r2 / 2)) by (nonlinear_arith)
            requires
                0 < r1 <= r2 / 2,
        ;
    } else if r2 < r1 {
        lemma_pow2_gap(r2, r1);
        assert(r2 * r2 <= (r1 / 2) * (r1 / 2)) by (nonlinear_arith)
            requires
                0 < r2 <= r1 / 2,
        ;
    }
}

/// A power of two has a single bit set.
proof fn lemma_pow2_single_bit(w: u64)
    requires
        is_pow2(w as int),
    ensures
        w != 0,
        w & ((w - 1) as u64) == 0,
    decreases w,
{
    reveal(is_pow2);
    if w > 1 {
        let v = w / 2;
        lemma_pow2_single_bit(v);
        assert(w & ((w - 1) as u64) == 0) by (bit_vector)
            requires
                w % 2 == 0,
                w > 1,
                v == w / 2,
                v & ((v - 1) as u64) == 0,
        ;
    } else {
        assert(1u64 & ((1u64 - 1) as u64) == 0) by (bit_vector);
    }
}

/// A power of two is two to the number of its trailing zero bits, so that
/// dividing by it is a shift by that number, and the remainder a mask.
pub proof fn lemma_pow2_shift(w: u64)
    requires
        is_pow2(w as int),
    ensures
        u64_trailing_zeros(w) < 64,
        pow2(u64_trailing_zeros(w) as nat) == w,
{
    lemma_pow2_single_bit(w);
    axiom_u64_trailing_zeros(w);
    let r = u64_trailing_zeros(w) as u64;
    assert(w == 1u64 << r) by (bit_vector)
        requires
            r < 64,
            w != 0,
            w & ((w - 1) as u64) == 0,
            (w >> r) & 1u64 == 1u64,
    ;
    lemma_u64_pow2_no_overflow(r as nat);
    lemma_u64_shl_is_mul(1, r);
}

/// The cluster width of a universe that a signed pointer-sized integer can
/// hold is a length that a vector can have.
pub proof fn lemma_upper_root_fits(r: int, u: int)
    requires
        is_upper_root(r, u),
        u <= isize::MAX,
    ensures
        r <= usize::MAX,
        r <= isize::MAX,
{
    if r != 2 {
        let h = r / 2;
        reveal(is_pow2);
        if usize::BITS == 32 {
            assert(h < 0x1_0000) by (nonlinear_arith)
                requires
                    h * h < u,
                    u <= 0x7fff_ffff,
            ;
        } else {
            assert(h < 0x1_0000_0000) by (nonlinear_arith)
                requires
                    h * h < u,
                    u <= 0x7fff_ffff_ffff_ffff,
            ;
        }
    }
}

/// The cluster width of universe `u`.
pub fn upper_root(u: i64) -> (r: i64)
    requires
        2 <= u,
    ensures
        is_upper_root(r as int, u as int),
{
    let mut r: i64 = 2;
    proof {
        reveal_with_fuel(is_pow2, 3);
    }
    while (r as i128) * (r as i128) < (u as i128)
        invariant
            is_pow2(r as int),
            2 <= r,
            r * r <= 0x2_0000_0000_0000_0000,
            r == 2 || (r / 2) * (r / 2) < u,
        decreases u - r,
    {
        proof {
            reveal(is_pow2);
            let h = r as int;
            assert(h < 0x1_0000_0000 && 2 * h < u && (2 * h) * (2 * h) <= 0x2_0000_0000_0000_0000)
                by (nonlinear_arith)
                requires
                    h * h < u,
                    u <= 0x7fff_ffff_ffff_ffff,
                    h >= 2,
            ;
        }
        r = r * 2;
    }
    r
}

} // verus!

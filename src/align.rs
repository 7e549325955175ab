//! Rounding of addresses to power-of-two alignments.
use vstd::arithmetic::div_mod::{lemma_div_is_ordered, lemma_div_multiples_vanish, lemma_fundamental_div_mod};
use vstd::arithmetic::power2::{lemma2_to64, lemma_pow2_adds, lemma_pow2_pos, pow2};
use vstd::bits::{low_bits_mask, lemma_usize_low_bits_mask_is_mod, lemma_usize_pow2_no_overflow, lemma_usize_shl_is_mul};
use vstd::prelude::*;

verus! {

/// `a` is a power of two that fits in a `usize`.
pub open spec fn is_pow2(a: usize) -> bool {
    exists|n: nat| n < usize::BITS && a == pow2(n)
}

/// The largest multiple of `a` that is at most `x`.
pub open spec fn round_down(x: int, a: int) -> int {
    x - x % a
}

/// The smallest multiple of `a` that is at least `x`.
pub open spec fn round_up(x: int, a: int) -> int {
    round_down(x + a - 1, a)
}

proof fn lemma_and_not(x: usize, m: usize)
    by (bit_vector)
    ensures
        x & !m == x - (x & m),
        x & m <= x,
{
}

/// A power of two is positive.
pub proof fn lemma_align_positive(a: usize)
    requires
        is_pow2(a),
    ensures
        a > 0,
{
    let n = choose|n: nat| n < usize::BITS && a == pow2(n);
    lemma_pow2_pos(n);
}

/// Rounding down lands on a multiple at most `a - 1` below `x`.
pub proof fn lemma_round_down_bounds(x: int, a: int)
    requires
        a > 0,
    ensures
        x - a < round_down(x, a) <= x,
        round_down(x, a) % a == 0,
{
    vstd::arithmetic::div_mod::lemma_mod_bound(x, a);
    vstd::arithmetic::div_mod::lemma_fundamental_div_mod(x, a);
    vstd::arithmetic::div_mod::lemma_mod_multiples_basic(x / a, a);
    assert(round_down(x, a) == a * (x / a));
    assert((x / a) * a == a * (x / a)) by (nonlinear_arith);
}

/// Rounding up lands on a multiple at most `a - 1` above `x`.
pub proof fn lemma_round_up_bounds(x: int, a: int)
    requires
        a > 0,
    ensures
        x <= round_up(x, a) < x + a,
        round_up(x, a) % a == 0,
{
    lemma_round_down_bounds(x + a - 1, a);
}

/// Where rounding up cannot be computed in a `usize`, its value lies past
/// every address.
pub proof fn lemma_round_up_overflows(x: usize, a: usize)
    requires
        is_pow2(a),
        x + a - 1 > usize::MAX,
    ensures
        round_up(x as int, a as int) > usize::MAX,
{
    let n = choose|n: nat| n < usize::BITS && a == pow2(n);
    lemma_pow2_pos(n);
    lemma2_to64();
    let bits = usize::BITS as nat;
    assert(usize::MAX + 1 == pow2(bits));
    lemma_pow2_adds(n, (bits - n) as nat);
    let k: int = pow2((bits - n) as nat) as int;
    let m: int = usize::MAX + 1;
    assert(m == a * k);
    let y: int = x + a - 1;
    let d: int = a as int;
    lemma_div_is_ordered(m, y, a as int);
    lemma_div_multiples_vanish(k, a as int);
    lemma_fundamental_div_mod(y, a as int);
    assert(d * (y / d) >= d * k) by (nonlinear_arith)
        requires
            y / d >= k,
            d > 0,
    ;
}

/// Masking off the bits below a power of two rounds down to a multiple of it.
proof fn lemma_mask_is_round_down(x: usize, a: usize)
    requires
        is_pow2(a),
    ensures
        a > 0,
        x & !((a - 1) as usize) == round_down(x as int, a as int),
{
    let n = choose|n: nat| n < usize::BITS && a == pow2(n);
    lemma_pow2_pos(n);
    lemma_usize_low_bits_mask_is_mod(x, n);
    assert(low_bits_mask(n) as usize == (a - 1) as usize);
    lemma_and_not(x, (a - 1) as usize);
}

/// A one shifted left by less than the width of a `usize` is a power of two.
pub proof fn lemma_shift_is_pow2(p: usize)
    requires
        p < usize::BITS,
    ensures
        is_pow2(1usize << p),
        (1usize << p) == pow2(p as nat),
{
    lemma_usize_pow2_no_overflow(p as nat);
    lemma_usize_shl_is_mul(1usize, p);
    assert(is_pow2(1usize << p));
}

/// Rounds `pos` up to a multiple of `align`.
pub fn align_up(pos: usize, align: usize) -> (r: usize)
    requires
        is_pow2(align),
        pos + align - 1 <= usize::MAX,
    ensures
        r == round_up(pos as int, align as int),
{
    proof {
        lemma_mask_is_round_down(pos, align);
        lemma_mask_is_round_down((pos + align - 1) as usize, align);
    }
    (pos + (align - 1)) & !(align - 1)
}

/// Rounds `pos` down to a multiple of `align`.
pub fn align_down(pos: usize, align: usize) -> (r: usize)
    requires
        is_pow2(align),
    ensures
        r == round_down(pos as int, align as int),
{
    proof {
        lemma_mask_is_round_down(pos, align);
    }
    pos & !(align - 1)
}

} // verus!

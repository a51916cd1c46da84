use vstd::prelude::*;
use vstd::arithmetic::div_mod::{lemma_add_mod_noop, lemma_breakdown};
use vstd::arithmetic::power2::{lemma2_to64, lemma_pow2_adds, lemma_pow2_pos, lemma_pow2_strictly_increases, pow2};
use vstd::bits::{lemma_u32_shr_is_div, lemma_u32_shl_is_mul, lemma_u64_shl_is_mul};
use crate::adder::adder;

verus! {

/// One step of shift-and-add: bit `i` of `b` adds `a * 2^i` to the partial product.
proof fn lemma_multiplier_step(a: u32, b: u32, i: u32, ret: u32)
    requires
        i < 32,
        ret as int == (a as int * (b as int % pow2(i as nat) as int)) % 0x1_0000_0000,
    ensures
        (1u32 << i) as int == pow2(i as nat),
        (b & (1u32 << i)) != 0 ==> (ret as int + (a << i) as int) % 0x1_0000_0000 == (a as int * (
        b as int % pow2((i + 1) as nat) as int)) % 0x1_0000_0000,
        (b & (1u32 << i)) == 0 ==> ret as int == (a as int * (b as int % pow2((i + 1) as nat) as int))
            % 0x1_0000_0000,
{
    let p = pow2(i as nat) as int;
    lemma2_to64();
    lemma_pow2_pos(i as nat);
    lemma_pow2_strictly_increases(i as nat, 32);
    lemma_pow2_adds(i as nat, 1);
    lemma_u32_shl_is_mul(1, i);
    lemma_u32_shr_is_div(b, i);
    assert(((b & (1u32 << i)) != 0) == (((b >> i) & 1u32) == 1u32)) by (bit_vector)
        requires
            i < 32,
    ;
    let s = b >> i;
    assert((s & 1u32) == s % 2) by (bit_vector);
    assert(pow2(1) == 2);
    assert(pow2((i + 1) as nat) as int == p * 2);
    lemma_breakdown(b as int, p, 2);
    let low = b as int % p;
    assert(b as int % (p * 2) == p * ((b as int / p) % 2) + low);
    assert(s as int == b as int / p);
    assert(b as int % pow2((i + 1) as nat) as int == p * ((b as int / p) % 2) + low);
    if (b & (1u32 << i)) != 0 {
        assert((b as int / p) % 2 == 1);
        assert(b as int % pow2((i + 1) as nat) as int == low + p);
    } else {
        assert((b as int / p) % 2 == 0);
        assert(b as int % pow2((i + 1) as nat) as int == low);
    }
    let wide = (a as u64) << (i as u64);
    assert(a as int * p <= u64::MAX) by (nonlinear_arith)
        requires
            a <= u32::MAX,
            0 < p < 0x1_0000_0000,
    ;
    lemma_u64_shl_is_mul(a as u64, i as u64);
    assert((a << i) as u64 == wide % 0x1_0000_0000u64) by (bit_vector)
        requires
            i < 32,
            wide == (a as u64) << (i as u64),
    ;
    assert(wide as int == a as int * p);
    assert((a << i) as int == (a as int * p) % 0x1_0000_0000);
    assert(a as int * (low + p) == a as int * low + a as int * p) by (nonlinear_arith);
    lemma_add_mod_noop(a as int * low, a as int * p, 0x1_0000_0000);
}

/// Multiplies two 32-bit words by shift-and-add over the bits of `b`; the product
/// wraps around at 2^32.
pub fn multiplier(a: u32, b: u32) -> (r: u32)
    ensures
        r as int == (a as int * b as int) % 0x1_0000_0000,
{
    let mut ret: u32 = 0;
    let mut i: u32 = 0;
    proof {
        lemma2_to64();
        assert(b as int % 1 == 0);
        assert(a as int * 0 == 0);
    }
    while i < 32
        invariant
            i <= 32,
            ret as int == (a as int * (b as int % pow2(i as nat) as int)) % 0x1_0000_0000,
        decreases 32 - i,
    {
        proof {
            lemma_multiplier_step(a, b, i, ret);
        }
        if (b & (1 << i)) != 0 {
            ret = adder(ret, a << i);
        }
        i = i + 1;
    }
    proof {
        lemma2_to64();
        assert(b as int % 0x1_0000_0000 == b as int);
    }
    ret
}

} // verus!

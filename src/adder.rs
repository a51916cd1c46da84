use vstd::prelude::*;

verus! {

/// The low `i` bits set.
pub open spec fn low_mask(i: u64) -> u64 {
    ((1u64 << i) - 1) as u64
}

/// The sum of the low `i` bits of `a` and of `b`, carry included.
pub open spec fn partial_sum(a: u32, b: u32, i: u64) -> u64 {
    ((a as u64 & low_mask(i)) + (b as u64 & low_mask(i))) as u64
}

/// Adds two 32-bit words with a ripple-carry chain of bit operations; the sum wraps
/// around at 2^32.
pub fn adder(a: u32, b: u32) -> (r: u32)
    ensures
        r as int == (a as int + b as int) % 0x1_0000_0000,
{
    let mut carry: u32 = 0;
    let mut ret: u32 = 0;
    let mut i: u32 = 0;
    proof {
        assert(0u32 as u64 == partial_sum(a, b, 0u64) & low_mask(0u64)
            && 0u32 as u64 == partial_sum(a, b, 0u64) >> 0u64) by (bit_vector);
    }
    while i < 32
        invariant
            i <= 32,
            ret as u64 == partial_sum(a, b, i as u64) & low_mask(i as u64),
            carry as u64 == partial_sum(a, b, i as u64) >> i as u64,
        decreases 32 - i,
    {
        let sum_bit = (a >> i & 1) ^ (b >> i & 1) ^ (carry);
        let new_ret = ret | sum_bit << i;
        let new_carry = ((a >> i & 1) & (b >> i & 1)) | (((a >> i & 1) ^ (b >> i & 1)) & carry);
        proof {
            let j = (i + 1) as u64;
            assert(new_ret as u64 == partial_sum(a, b, j) & low_mask(j)
                && new_carry as u64 == partial_sum(a, b, j) >> j) by (bit_vector)
                requires
                    i < 32,
                    j == i + 1,
                    ret as u64 == partial_sum(a, b, i as u64) & low_mask(i as u64),
                    carry as u64 == partial_sum(a, b, i as u64) >> i as u64,
                    sum_bit == (a >> i & 1) ^ (b >> i & 1) ^ (carry),
                    new_ret == ret | sum_bit << i,
                    new_carry == ((a >> i & 1) & (b >> i & 1)) | (((a >> i & 1) ^ (b >> i & 1))
                        & carry),
            ;
        }
        ret = new_ret;
        carry = new_carry;
        i = i + 1;
    }
    proof {
        assert(ret as u64 == partial_sum(a, b, 32u64) & low_mask(32u64) ==> ret as u64 == ((a as u64
            + b as u64) as u64) % 0x1_0000_0000u64) by (bit_vector);
    }
    ret
}

} // verus!

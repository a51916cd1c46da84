use vstd::prelude::*;

verus! {

/// Bit `i` of the low half of `x` moved to bit `2 * i`; the odd bits are zero.
pub open spec fn spread_bits(x: u32) -> u32 {
    (x & 0x1u32) | ((x & 0x2u32) << 1u32) | ((x & 0x4u32) << 2u32) | ((x & 0x8u32) << 3u32)
    | ((x & 0x10u32) << 4u32) | ((x & 0x20u32) << 5u32) | ((x & 0x40u32) << 6u32) | ((x & 0x80u32) << 7u32)
    | ((x & 0x100u32) << 8u32) | ((x & 0x200u32) << 9u32) | ((x & 0x400u32) << 10u32) | ((x & 0x800u32) << 11u32)
    | ((x & 0x1000u32) << 12u32) | ((x & 0x2000u32) << 13u32) | ((x & 0x4000u32) << 14u32) | ((x & 0x8000u32) << 15u32)
}

/// Bit `2 * i` of `x` moved to bit `i`, for each of the 32 even positions.
pub open spec fn compact_bits(x: u64) -> u64 {
    (x & 0x1u64) | ((x >> 1u64) & 0x2u64) | ((x >> 2u64) & 0x4u64) | ((x >> 3u64) & 0x8u64)
    | ((x >> 4u64) & 0x10u64) | ((x >> 5u64) & 0x20u64) | ((x >> 6u64) & 0x40u64) | ((x >> 7u64) & 0x80u64)
    | ((x >> 8u64) & 0x100u64) | ((x >> 9u64) & 0x200u64) | ((x >> 10u64) & 0x400u64) | ((x >> 11u64) & 0x800u64)
    | ((x >> 12u64) & 0x1000u64) | ((x >> 13u64) & 0x2000u64) | ((x >> 14u64) & 0x4000u64) | ((x >> 15u64) & 0x8000u64)
    | ((x >> 16u64) & 0x10000u64) | ((x >> 17u64) & 0x20000u64) | ((x >> 18u64) & 0x40000u64) | ((x >> 19u64) & 0x80000u64)
    | ((x >> 20u64) & 0x100000u64) | ((x >> 21u64) & 0x200000u64) | ((x >> 22u64) & 0x400000u64) | ((x >> 23u64) & 0x800000u64)
    | ((x >> 24u64) & 0x1000000u64) | ((x >> 25u64) & 0x2000000u64) | ((x >> 26u64) & 0x4000000u64) | ((x >> 27u64) & 0x8000000u64)
    | ((x >> 28u64) & 0x10000000u64) | ((x >> 29u64) & 0x20000000u64) | ((x >> 30u64) & 0x40000000u64) | ((x >> 31u64) & 0x80000000u64)
}

/// Spreads the low 16 bits of `x` to the even positions.
fn part1by1(x: u32) -> (r: u32)
    ensures
        r == spread_bits(x),
{
    let x0 = x & 0x0000_ffff;
    let x1 = (x0 | (x0 << 8)) & 0x00FF_00FF;
    let x2 = (x1 | (x1 << 4)) & 0x0F0F_0F0F;
    let x3 = (x2 | (x2 << 2)) & 0x3333_3333;
    let x4 = (x3 | (x3 << 1)) & 0x5555_5555;
    proof {
        assert(x4 == spread_bits(x)) by (bit_vector)
            requires
                x0 == x & 0x0000_ffffu32,
                x1 == (x0 | (x0 << 8u32)) & 0x00FF_00FFu32,
                x2 == (x1 | (x1 << 4u32)) & 0x0F0F_0F0Fu32,
                x3 == (x2 | (x2 << 2u32)) & 0x3333_3333u32,
                x4 == (x3 | (x3 << 1u32)) & 0x5555_5555u32,
        ;
    }
    x4
}

/// The Morton (Z-order) code of a point: the bits of `x` at the even positions, those
/// of `y` at the odd ones.
pub fn morton32(x: u16, y: u16) -> (r: u64)
    ensures
        r == (spread_bits(x as u32) | (spread_bits(y as u32) << 1u32)) as u64,
{
    let xx = part1by1(x as u32);
    let yy = part1by1(y as u32) << 1u32;
    proof {
        assert((yy | xx) == (xx | yy)) by (bit_vector);
    }
    (yy | xx) as u64
}

/// Gathers the even bits of `x` into a 32-bit word.
fn compact1by1(x: u64) -> (r: u32)
    ensures
        r as u64 == compact_bits(x),
{
    let x0 = x & 0x5555_5555_5555_5555;
    let x1 = (x0 | (x0 >> 1)) & 0x3333_3333_3333_3333;
    let x2 = (x1 | (x1 >> 2)) & 0x0F0F_0F0F_0F0F_0F0F;
    let x3 = (x2 | (x2 >> 4)) & 0x00FF_00FF_00FF_00FF;
    let x4 = (x3 | (x3 >> 8)) & 0x0000_FFFF_0000_FFFF;
    let x5 = (x4 | (x4 >> 16)) & 0x0000_0000_FFFF_FFFF;
    proof {
        assert(x5 == compact_bits(x)) by (bit_vector)
            requires
                x0 == x & 0x5555_5555_5555_5555u64,
                x1 == (x0 | (x0 >> 1u64)) & 0x3333_3333_3333_3333u64,
                x2 == (x1 | (x1 >> 2u64)) & 0x0F0F_0F0F_0F0F_0F0Fu64,
                x3 == (x2 | (x2 >> 4u64)) & 0x00FF_00FF_00FF_00FFu64,
                x4 == (x3 | (x3 >> 8u64)) & 0x0000_FFFF_0000_FFFFu64,
                x5 == (x4 | (x4 >> 16u64)) & 0x0000_0000_FFFF_FFFFu64,
        ;
        assert(x5 <= 0xffff_ffffu64) by (bit_vector)
            requires
                x5 == (x4 | (x4 >> 16u64)) & 0x0000_0000_FFFF_FFFFu64,
        ;
    }
    x5 as u32
}

/// The point of a Morton code: its even bits give `x`, its odd bits `y`, each cut to
/// 16 bits.
pub fn morton_decode(n: u64) -> (r: (u16, u16))
    ensures
        r.0 == compact_bits(n) as u16,
        r.1 == compact_bits(n >> 1u64) as u16,
{
    let x = compact1by1(n);
    let y = compact1by1(n >> 1);
    (x as u16, y as u16)
}

/// Decoding a Morton code gives back the point it was made from.
pub proof fn lemma_morton_round_trip(x: u16, y: u16)
    ensures
        compact_bits((spread_bits(x as u32) | (spread_bits(y as u32) << 1u32)) as u64) as u16 == x,
        compact_bits(((spread_bits(x as u32) | (spread_bits(y as u32) << 1u32)) as u64) >> 1u64) as u16 == y,
{
    let xs = x as u32;
    let ys = y as u32;
    let sx = spread_bits(xs);
    let sy = spread_bits(ys);
    let m = (sx | (sy << 1u32)) as u64;
    assert(xs <= 0xffffu32 && ys <= 0xffffu32);
    assert(compact_bits(m) == xs as u64 && compact_bits(m >> 1u64) == ys as u64) by (bit_vector)
        requires
            xs <= 0xffffu32,
            ys <= 0xffffu32,
            sx == spread_bits(xs),
            sy == spread_bits(ys),
            m == (sx | (sy << 1u32)) as u64,
    ;
}

} // verus!

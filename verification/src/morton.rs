use vstd::prelude::*;

verus! {

/// Bit `b` of a 32-bit word is set.
pub open spec fn bit32(w: u32, b: int) -> bool {
    (w >> (b as u32)) & 1u32 == 1u32
}

/// The low 16 bits of `v` moved to the even bit positions: bit `k` of `v` goes to bit `2k`.
pub open spec fn spread_bits(v: u32) -> u32 {
    let v0 = v & 0x0000FFFFu32;
    let v1 = (v0 | (v0 << 8u32)) & 0x00FF00FFu32;
    let v2 = (v1 | (v1 << 4u32)) & 0x0F0F0F0Fu32;
    let v3 = (v2 | (v2 << 2u32)) & 0x33333333u32;
    (v3 | (v3 << 1u32)) & 0x55555555u32
}

/// The Z-order index of cell `(x, y)`: the bits of `x` on the even positions and the bits of `y`
/// on the odd positions.
pub open spec fn interleave(x: u32, y: u32) -> u32 {
    spread_bits(x) | (spread_bits(y) << 1u32)
}

proof fn lemma_spread_bit(v: u32, k: u32)
    by (bit_vector)
    requires
        k < 32,
    ensures
        (spread_bits(v) >> k) & 1u32 == (if k % 2 == 0 { (v >> (k / 2)) & 1u32 } else { 0u32 }),
{
}

proof fn lemma_interleave_bit(x: u32, y: u32, k: u32)
    by (bit_vector)
    requires
        k < 32,
    ensures
        (interleave(x, y) >> k) & 1u32 == (if k % 2 == 0 { (x >> (k / 2)) & 1u32 } else { (y >> (k
            / 2)) & 1u32 }),
{
}

/// Spreads the low 16 bits of one lane over the even bit positions.
pub fn expand_bits_lane(value: u32) -> (r: u32)
    ensures
        r == spread_bits(value),
        forall|k: int|
            0 <= k < 32 ==> #[trigger] bit32(r, k) == (k % 2 == 0 && bit32(value, k / 2)),
{
    let mut v = value;
    v = v & 0x0000FFFF;
    v = (v | (v << 8u32)) & 0x00FF00FF;
    v = (v | (v << 4u32)) & 0x0F0F0F0F;
    v = (v | (v << 2u32)) & 0x33333333;
    v = (v | (v << 1u32)) & 0x55555555;
    proof {
        assert forall|k: int| 0 <= k < 32 implies #[trigger] bit32(v, k) == (k % 2 == 0 && bit32(
            value, k / 2)) by {
            lemma_spread_bit(value, k as u32);
        }
    }
    v
}


/// The Z-order index of one lane: the bits of `x` interleaved with the bits of `y`.
pub fn morton_code_lane(x: u32, y: u32) -> (r: u32)
    ensures
        r == interleave(x, y),
        forall|k: int|
            0 <= k < 32 ==> #[trigger] bit32(r, k) == (if k % 2 == 0 {
                bit32(x, k / 2)
            } else {
                bit32(y, k / 2)
            }),
{
    let r = expand_bits_lane(x) | (expand_bits_lane(y) << 1u32);
    proof {
        assert forall|k: int| 0 <= k < 32 implies #[trigger] bit32(r, k) == (if k % 2 == 0 {
            bit32(x, k / 2)
        } else {
            bit32(y, k / 2)
        }) by {
            lemma_interleave_bit(x, y, k as u32);
        }
    }
    r
}

/// Spreads the low 16 bits of each of the eight lanes over its even bit positions.
pub fn expand_bits(v: [u32; 8]) -> (r: [u32; 8])
    ensures
        forall|l: int| 0 <= l < 8 ==> #[trigger] r[l] == spread_bits(v[l]),
{
    let mut r: [u32; 8] = [0u32; 8];
    let mut l: usize = 0;
    while l < 8
        invariant
            l <= 8,
            forall|m: int| 0 <= m < l ==> #[trigger] r[m] == spread_bits(v[m]),
        decreases 8 - l,
    {
        r[l] = expand_bits_lane(v[l]);
        l += 1;
    }
    r
}

/// The Z-order index of each of the eight cells `(x[l], y[l])`.
pub fn morton_code(x: [u32; 8], y: [u32; 8]) -> (r: [u32; 8])
    ensures
        forall|l: int| 0 <= l < 8 ==> #[trigger] r[l] == interleave(x[l], y[l]),
{
    let ex = expand_bits(x);
    let ey = expand_bits(y);
    let mut r: [u32; 8] = [0u32; 8];
    let mut l: usize = 0;
    while l < 8
        invariant
            l <= 8,
            forall|m: int| 0 <= m < 8 ==> #[trigger] ex[m] == spread_bits(x[m]),
            forall|m: int| 0 <= m < 8 ==> #[trigger] ey[m] == spread_bits(y[m]),
            forall|m: int| 0 <= m < l ==> #[trigger] r[m] == interleave(x[m], y[m]),
        decreases 8 - l,
    {
        r[l] = ex[l] | (ey[l] << 1u32);
        l += 1;
    }
    r
}

/// Two cells with 16-bit coordinates share a Z-order index only when they are the same cell.
pub proof fn lemma_morton_injective(x1: u32, y1: u32, x2: u32, y2: u32)
    requires
        x1 < 0x10000,
        y1 < 0x10000,
        x2 < 0x10000,
        y2 < 0x10000,
        interleave(x1, y1) == interleave(x2, y2),
    ensures
        x1 == x2,
        y1 == y2,
{
    assert(x1 == x2 && y1 == y2) by (bit_vector)
        requires
            x1 < 0x10000,
            y1 < 0x10000,
            x2 < 0x10000,
            y2 < 0x10000,
            interleave(x1, y1) == interleave(x2, y2),
    ;
}

/// A cell of a square grid whose side is `2^p` has a Z-order index below `4^p`.
pub proof fn lemma_morton_bound(x: u32, y: u32, p: u32)
    requires
        p <= 16,
        x < (1u64 << p),
        y < (1u64 << p),
    ensures
        (interleave(x, y) as u64) < (1u64 << (2 * p) as u64),
{
    let pp = p as u64;
    let xx = x as u64;
    let yy = y as u64;
    assert((interleave(x, y) as u64) < (1u64 << (2 * pp))) by (bit_vector)
        requires
            pp <= 16,
            xx < (1u64 << pp),
            yy < (1u64 << pp),
            xx == x as u64,
            yy == y as u64,
    ;
}

/// Reverses the order of the eight lanes.
pub fn reverse_u32x8(values: [u32; 8]) -> (r: [u32; 8])
    ensures
        forall|l: int| 0 <= l < 8 ==> #[trigger] r[l] == values[7 - l],
{
    [values[7], values[6], values[5], values[4], values[3], values[2], values[1], values[0]]
}

} // verus!

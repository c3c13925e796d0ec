use vstd::prelude::*;

verus! {

/// The integer hash that scrambles one lane: xor-shifts and multiplications modulo 2^32.
pub open spec fn hash_mix(x: u32) -> u32 {
    let m1 = x ^ (x >> 16u32);
    let m2 = ((m1 as nat * 0x7feb352dnat) % 0x1_0000_0000nat) as u32;
    let m3 = m2 ^ (m2 >> 15u32);
    let m4 = ((m3 as nat * 0x846ca68bnat) % 0x1_0000_0000nat) as u32;
    m4 ^ (m4 >> 16u32)
}

/// The bits of an `f32` in `[1, 2)` whose mantissa is the low 23 bits of `h`.
pub open spec fn unit_float_bits(h: u32) -> u32 {
    (h & 0x007FFFFFu32) | 0x3F800000u32
}

/// The bit pattern is that of a positive `f32` with exponent zero (biased 127), so a number in
/// `[1, 2)`, whose 23 mantissa bits are the low 23 bits of `h`.
pub proof fn lemma_unit_float_bits(h: u32)
    ensures
        unit_float_bits(h) >> 23u32 == 127u32,
        unit_float_bits(h) & 0x007FFFFFu32 == h & 0x007FFFFFu32,
{
    assert(((h & 0x007FFFFFu32) | 0x3F800000u32) >> 23u32 == 127u32) by (bit_vector);
    assert(((h & 0x007FFFFFu32) | 0x3F800000u32) & 0x007FFFFFu32 == h & 0x007FFFFFu32) by (bit_vector);
}

/// The float bit patterns of the pseudo-random numbers of the eight particles of chunk
/// `chunk_index`: lane `l` hashes particle index `8 * chunk_index + l` mixed with `seed` and keeps
/// 23 bits of it as the mantissa of a number in `[1, 2)`.
pub fn random_float_bits(chunk_index: usize, seed: u32) -> (r: [u32; 8])
    requires
        chunk_index * 8 + 7 <= u32::MAX,
    ensures
        forall|l: int|
            0 <= l < 8 ==> #[trigger] r[l] == unit_float_bits(
                hash_mix(((chunk_index * 8 + l) as u32) ^ seed),
            ),
{
    let base_idx = (chunk_index * 8) as u32;
    let lanes: [u32; 8] = [
        base_idx,
        base_idx + 1,
        base_idx + 2,
        base_idx + 3,
        base_idx + 4,
        base_idx + 5,
        base_idx + 6,
        base_idx + 7,
    ];
    let mut r: [u32; 8] = [0u32; 8];
    let mut l: usize = 0;
    while l < 8
        invariant
            l <= 8,
            chunk_index * 8 + 7 <= u32::MAX,
            base_idx == chunk_index * 8,
            forall|m: int| 0 <= m < 8 ==> #[trigger] lanes[m] == base_idx + m,
            forall|m: int|
                0 <= m < l ==> #[trigger] r[m] == unit_float_bits(
                    hash_mix(((chunk_index * 8 + m) as u32) ^ seed),
                ),
        decreases 8 - l,
    {
        let mut mix = lanes[l] ^ seed;
        mix ^= mix >> 16u32;
        mix = mix.wrapping_mul(0x7feb352d);
        mix ^= mix >> 15u32;
        mix = mix.wrapping_mul(0x846ca68b);
        mix ^= mix >> 16u32;
        let mantissa_mask: u32 = 0x007FFFFF;
        let exponent_one: u32 = 0x3F800000;
        r[l] = (mix & mantissa_mask) | exponent_one;
        l += 1;
    }
    r
}

/// The seeds of the two spatial jitters of step `timestamp`.
pub fn jitter_seeds(timestamp: u32) -> (r: (u32, u32))
    ensures
        r.0 == ((timestamp as nat * 73856093nat) % 0x1_0000_0000nat) as u32 ^ 0x193a6754u32,
        r.1 == ((timestamp as nat * 19349663nat) % 0x1_0000_0000nat) as u32 ^ 0x45678912u32,
{
    let seed_x = timestamp.wrapping_mul(73856093) ^ 0x193a6754;
    let seed_y = timestamp.wrapping_mul(19349663) ^ 0x45678912;
    (seed_x, seed_y)
}

} // verus!

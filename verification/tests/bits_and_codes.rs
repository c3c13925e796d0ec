use flip::bitset::{clear_flags, list_flagged, read_flag, set_flag};
use flip::morton::{expand_bits, expand_bits_lane, morton_code, morton_code_lane, reverse_u32x8};
use flip::noise::{jitter_seeds, random_float_bits};

#[test]
fn set_then_read_flags() {
    let mut words = vec![0u64; 2];
    set_flag(&mut words, 3);
    set_flag(&mut words, 64);
    set_flag(&mut words, 127);
    assert_eq!(read_flag(&words, 3), 1);
    assert_eq!(read_flag(&words, 64), 1);
    assert_eq!(read_flag(&words, 127), 1);
    assert_eq!(read_flag(&words, 4), 0);
    assert_eq!(read_flag(&words, 63), 0);
    assert_eq!(words, vec![1u64 << 3, 1u64 | (1u64 << 63)]);
}

#[test]
fn setting_a_flag_twice_keeps_it_set() {
    let mut words = vec![0u64; 1];
    set_flag(&mut words, 10);
    set_flag(&mut words, 10);
    assert_eq!(words, vec![1u64 << 10]);
}

#[test]
fn clearing_removes_masked_flags_only() {
    let mut words = vec![0b1111u64, u64::MAX];
    let mask = vec![0b0101u64, 1u64 << 40, 0xffu64];
    clear_flags(&mut words, &mask);
    assert_eq!(words, vec![0b1010u64, u64::MAX & !(1u64 << 40)]);
}

#[test]
fn listing_flags_in_increasing_order() {
    let mut words = vec![0u64; 3];
    for cell in [130usize, 5, 64, 0, 63, 191, 65] {
        set_flag(&mut words, cell);
    }
    assert_eq!(list_flagged(&words), vec![0u32, 5, 63, 64, 65, 130, 191]);
}

#[test]
fn listing_an_empty_bitset() {
    assert_eq!(list_flagged(&vec![0u64; 4]), Vec::<u32>::new());
    assert_eq!(list_flagged(&Vec::new()), Vec::<u32>::new());
}

#[test]
fn listing_a_full_word() {
    let words = vec![u64::MAX];
    let expected: Vec<u32> = (0..64).collect();
    assert_eq!(list_flagged(&words), expected);
}

#[test]
fn expanding_bits_of_one_lane() {
    assert_eq!(expand_bits_lane(0b1011), 0b100_0101);
    assert_eq!(expand_bits_lane(0xffff), 0x5555_5555);
    assert_eq!(expand_bits_lane(0xffff_0000), 0);
    assert_eq!(expand_bits_lane(0), 0);
}

#[test]
fn interleaving_one_lane() {
    assert_eq!(morton_code_lane(3, 5), 39);
    assert_eq!(morton_code_lane(1, 0), 1);
    assert_eq!(morton_code_lane(0, 1), 2);
    assert_eq!(morton_code_lane(0xffff, 0xffff), u32::MAX);
}

#[test]
fn morton_codes_stay_below_the_square() {
    for x in 0..8u32 {
        for y in 0..8u32 {
            assert!(morton_code_lane(x, y) < 64);
        }
    }
}

#[test]
fn morton_codes_of_distinct_cells_differ() {
    let mut seen = std::collections::HashSet::new();
    for x in 0..32u32 {
        for y in 0..32u32 {
            assert!(seen.insert(morton_code_lane(x, y)));
        }
    }
    assert_eq!(seen.len(), 1024);
}

#[test]
fn expanding_and_interleaving_eight_lanes() {
    let x = [0u32, 1, 2, 3, 11, 0xffff, 7, 0];
    let y = [0u32, 0, 1, 5, 0, 0xffff, 7, 1];
    let ex = expand_bits(x);
    assert_eq!(ex, [0, 1, 4, 5, 69, 0x5555_5555, 21, 0]);
    assert_eq!(morton_code(x, y), [0, 1, 6, 39, 69, u32::MAX, 63, 2]);
}

#[test]
fn reversing_lanes() {
    let v = [1u32, 2, 3, 4, 5, 6, 7, 8];
    assert_eq!(reverse_u32x8(v), [8, 7, 6, 5, 4, 3, 2, 1]);
    assert_eq!(reverse_u32x8(reverse_u32x8(v)), v);
}

fn reference_hash(x: u32) -> u32 {
    let mut m = x;
    m ^= m >> 16;
    m = m.wrapping_mul(0x7feb352d);
    m ^= m >> 15;
    m = m.wrapping_mul(0x846ca68b);
    m ^= m >> 16;
    m
}

#[test]
fn random_bits_of_the_first_chunk() {
    assert_eq!(
        random_float_bits(0, 0),
        [0x3f800000, 0x3f8990c0, 0x3f932181, 0x3ff1e9dd, 0x3ffe5ed1, 0x3fc5d53e, 0x3fe3d3bb, 0x3f8ba1e6]
    );
}

#[test]
fn random_bits_follow_the_hash() {
    let seed = 0xdead_beef;
    let r = random_float_bits(5, seed);
    for l in 0..8u32 {
        let expected = (reference_hash((40 + l) ^ seed) & 0x007F_FFFF) | 0x3F80_0000;
        assert_eq!(r[l as usize], expected);
        let value = f32::from_bits(r[l as usize]);
        assert!((1.0..2.0).contains(&value));
    }
}

#[test]
fn jitter_seeds_of_the_first_steps() {
    assert_eq!(jitter_seeds(0), (0x193a6754, 0x45678912));
    assert_eq!(jitter_seeds(1), (0x1d5c9309, 0x4440c98d));
}

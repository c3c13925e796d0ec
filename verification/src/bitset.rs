use vstd::prelude::*;

verus! {

/// Bit `b` (counted from the least significant end) of `w` is set.
pub open spec fn bit_set(w: u64, b: int) -> bool {
    (w >> (b as u64)) & 1u64 == 1u64
}

proof fn lemma_bit_value(w: u64, b: u64)
    by (bit_vector)
    ensures
        (w >> b) & 1u64 == 0u64 || (w >> b) & 1u64 == 1u64,
{
}

proof fn lemma_clear_keeps_higher(w: u64, t: u64, b: u64)
    by (bit_vector)
    requires
        t < b,
        b < 64,
        (w >> t) & 1u64 == 1u64,
    ensures
        ((w & ((w - 1) as u64)) >> b) & 1u64 == (w >> b) & 1u64,
{
}

proof fn lemma_low_zero_step(w: u64, t: u64)
    by (bit_vector)
    requires
        t < 64,
        w << ((64 - t) as u64) == 0u64,
        (w >> t) & 1u64 == 0u64,
    ensures
        w << ((63 - t) as u64) == 0u64,
{
}

proof fn lemma_clear_lowest(w: u64, t: u64)
    by (bit_vector)
    requires
        t < 64,
        w << ((64 - t) as u64) == 0u64,
        (w >> t) & 1u64 == 1u64,
    ensures
        ((w & ((w - 1) as u64)) >> t) & 1u64 == 0u64,
        (w & ((w - 1) as u64)) < w,
{
}


proof fn lemma_low_bits_zero(w: u64, t: u64)
    requires
        t <= 64,
        forall|j: u64| j < t ==> #[trigger] ((w >> j) & 1u64) == 0u64,
    ensures
        w << ((64 - t) as u64) == 0u64,
    decreases t,
{
    if t == 0 {
        assert(w << 64u64 == 0u64) by (bit_vector);
    } else {
        lemma_low_bits_zero(w, (t - 1) as u64);
        assert((w >> ((t - 1) as u64)) & 1u64 == 0u64);
        lemma_low_zero_step(w, (t - 1) as u64);
    }
}

/// The flag of cell `i` in a bitset stored as 64-bit words: bit `i % 64` of word `i / 64`.
pub open spec fn cell_flag(words: Seq<u64>, i: int) -> bool {
    bit_set(words[i / 64], i % 64)
}

/// The cells below `n` whose flag is set, in increasing order.
pub open spec fn flagged_upto(words: Seq<u64>, n: int) -> Seq<u32>
    decreases n,
{
    if n <= 0 {
        Seq::empty()
    } else {
        let prefix = flagged_upto(words, n - 1);
        if cell_flag(words, n - 1) {
            prefix.push((n - 1) as u32)
        } else {
            prefix
        }
    }
}

/// Every flagged cell of the bitset, in increasing order.
pub open spec fn flagged_cells(words: Seq<u64>) -> Seq<u32> {
    flagged_upto(words, 64 * words.len() as int)
}

/// What `flagged_upto` holds: exactly the flagged cells below `n`, strictly increasing.
pub proof fn lemma_flagged_upto(words: Seq<u64>, n: int)
    requires
        0 <= n,
        n <= 64 * words.len(),
        64 * words.len() <= u32::MAX + 1,
    ensures
        flagged_upto(words, n).len() <= n,
        forall|k: int|
            0 <= k < flagged_upto(words, n).len() ==> 0 <= #[trigger] flagged_upto(words, n)[k] < n
                && cell_flag(words, flagged_upto(words, n)[k] as int),
        forall|k: int, l: int|
            0 <= k < l < flagged_upto(words, n).len() ==> #[trigger] flagged_upto(words, n)[k]
                < #[trigger] flagged_upto(words, n)[l],
        forall|c: int|
            0 <= c < n && cell_flag(words, c) ==> #[trigger] flagged_upto(words, n).contains(
                c as u32,
            ),
    decreases n,
{
    if n > 0 {
        lemma_flagged_upto(words, n - 1);
        let p = flagged_upto(words, n - 1);
        assert forall|c: int|
            0 <= c < n && cell_flag(words, c) implies #[trigger] flagged_upto(words, n).contains(
            c as u32,
        ) by {
            if c < n - 1 {
                assert(p.contains(c as u32));
                let k = choose|k: int| 0 <= k < p.len() && p[k] == c as u32;
                assert(flagged_upto(words, n)[k] == c as u32);
            } else {
                assert(flagged_upto(words, n)[p.len() as int] == c as u32);
            }
        }
    }
}

/// Extending the range over cells that are not flagged adds nothing.
proof fn lemma_flagged_skip(words: Seq<u64>, a: int, b: int)
    requires
        0 <= a <= b,
        forall|c: int| a <= c < b ==> !#[trigger] cell_flag(words, c),
    ensures
        flagged_upto(words, b) == flagged_upto(words, a),
    decreases b - a,
{
    if b > a {
        lemma_flagged_skip(words, a, b - 1);
        assert(!cell_flag(words, b - 1));
    }
}

/// Reads the flag of cell `index`: 1 when it is set, 0 when not.
pub fn read_flag(words: &Vec<u64>, index: usize) -> (r: u64)
    requires
        index < 64 * words.len(),
    ensures
        r == (if cell_flag(words@, index as int) { 1u64 } else { 0u64 }),
{
    let word = words[index / 64];
    let shift = (index % 64) as u64;
    proof {
        lemma_bit_value(word, shift);
        assert(1u64 & (word >> shift) == (word >> shift) & 1u64) by (bit_vector);
    }
    1 & (word >> shift)
}

/// Sets the flag of cell `index`; every other flag is kept.
pub fn set_flag(words: &mut Vec<u64>, index: usize)
    requires
        index < 64 * old(words).len(),
    ensures
        final(words).len() == old(words).len(),
        forall|c: int|
            0 <= c < 64 * old(words).len() ==> #[trigger] cell_flag(final(words)@, c) == (
            cell_flag(old(words)@, c) || c == index),
{
    let w = index / 64;
    let shift = (index % 64) as u64;
    let old_word = words[w];
    let new_word = old_word | (1u64 << shift);
    words.set(w, new_word);
    assert forall|c: int| 0 <= c < 64 * old(words).len() implies #[trigger] cell_flag(words@, c) == (
    cell_flag(old(words)@, c) || c == index) by {
        if c / 64 == w as int {
            let b = (c % 64) as u64;
            assert(((old_word | (1u64 << shift)) >> b) & 1u64 == 1u64 <==> (((old_word >> b) & 1u64
                == 1u64) || b == shift)) by (bit_vector)
                requires
                    b < 64,
                    shift < 64,
            ;
        }
    }
}

/// Clears every flag that is set in `mask`: the word-wise `words & !mask`.
pub fn clear_flags(words: &mut Vec<u64>, mask: &Vec<u64>)
    requires
        old(words).len() <= mask.len(),
    ensures
        final(words).len() == old(words).len(),
        forall|c: int|
            0 <= c < 64 * old(words).len() ==> #[trigger] cell_flag(final(words)@, c) == (
            cell_flag(old(words)@, c) && !cell_flag(mask@, c)),
{
    let mut i: usize = 0;
    while i < words.len()
        invariant
            i <= words.len(),
            words.len() == old(words).len(),
            old(words).len() <= mask.len(),
            forall|k: int| 0 <= k < i ==> words@[k] == old(words)@[k] & !mask@[k],
            forall|k: int| i <= k < words.len() ==> words@[k] == old(words)@[k],
        decreases words.len() - i,
    {
        let cleared = words[i] & !mask[i];
        words.set(i, cleared);
        i += 1;
    }
    assert forall|c: int| 0 <= c < 64 * old(words).len() implies #[trigger] cell_flag(words@, c) == (
    cell_flag(old(words)@, c) && !cell_flag(mask@, c)) by {
        let a = old(words)@[c / 64];
        let m = mask@[c / 64];
        let b = (c % 64) as u64;
        assert(((a & !m) >> b) & 1u64 == 1u64 <==> (((a >> b) & 1u64 == 1u64) && !((m >> b) & 1u64
            == 1u64))) by (bit_vector)
            requires
                b < 64,
        ;
    }
}

/// Lists the flagged cells in increasing order.
pub fn list_flagged(words: &Vec<u64>) -> (r: Vec<u32>)
    requires
        64 * words.len() <= u32::MAX + 1,
    ensures
        r@ == flagged_cells(words@),
{
    broadcast use vstd::std_specs::bits::axiom_u64_trailing_zeros;

    let mut out: Vec<u32> = Vec::new();
    let mut i: usize = 0;
    while i < words.len()
        invariant
            i <= words.len(),
            64 * words.len() <= u32::MAX + 1,
            out@ == flagged_upto(words@, 64 * i),
        decreases words.len() - i,
    {
        let mut mask: u64 = words[i];
        let ghost mut lo: int = 0;
        while mask != 0
            invariant
                i < words.len(),
                64 * words.len() <= u32::MAX + 1,
                0 <= lo <= 64,
                forall|b: int| 0 <= b < 64 ==> #[trigger] bit_set(mask, b) == (bit_set(words@[i as int], b) && b >= lo),
                out@ == flagged_upto(words@, 64 * i + lo),
            decreases mask,
        {
            let t = mask.trailing_zeros();
            let ghost tt = t as u64;
            proof {
                assert((mask >> tt) & 1u64 == 1u64);
                assert(bit_set(mask, t as int));
                assert(t as int >= lo);
                assert forall|c: int| 64 * i + lo <= c < 64 * i + t implies !#[trigger] cell_flag(words@, c) by {
                    let b = c - 64 * i;
                    assert(c / 64 == i as int);
                    assert(c % 64 == b);
                    assert((mask >> (b as u64)) & 1u64 == 0u64);
                    assert(!bit_set(mask, b));
                }
                lemma_flagged_skip(words@, 64 * i + lo, 64 * i + t);
                assert(cell_flag(words@, 64 * i + t)) by {
                    assert((64 * i + t) / 64 == i as int);
                    assert((64 * i + t) % 64 == t as int);
                }
            }
            out.push((i * 64 + t as usize) as u32);
            proof {
                assert(out@ == flagged_upto(words@, 64 * i + t + 1));
                lemma_low_bits_zero(mask, tt);
                lemma_clear_lowest(mask, tt);
                assert forall|b: int| 0 <= b < 64 implies #[trigger] bit_set(mask & ((mask - 1) as u64), b) == (bit_set(words@[i as int], b) && b >= t + 1) by {
                    let bb = b as u64;
                    if b > t {
                        lemma_clear_keeps_higher(mask, tt, bb);
                        assert(bit_set(mask, b) == (bit_set(words@[i as int], b) && b >= lo));
                    } else if b == t {
                        assert(bb == tt);
                        assert(((mask & ((mask - 1) as u64)) >> tt) & 1u64 == 0u64);
                    } else {
                        assert((mask >> bb) & 1u64 == 0u64);
                        assert(((mask & ((mask - 1) as u64)) >> bb) & 1u64 == 0u64) by (bit_vector)
                            requires (mask >> bb) & 1u64 == 0u64;
                    }
                }
                lo = t + 1;
            }
            mask = mask & (mask - 1);
        }
        proof {
            assert forall|c: int| 64 * i + lo <= c < 64 * i + 64 implies !#[trigger] cell_flag(words@, c) by {
                let b = c - 64 * i;
                assert(c / 64 == i as int);
                assert(c % 64 == b);
                assert(!bit_set(0u64, b)) by {
                    let bb = b as u64;
                    assert((0u64 >> bb) & 1u64 == 0u64) by (bit_vector);
                }
            }
            lemma_flagged_skip(words@, 64 * i + lo, 64 * i + 64);
        }
        i += 1;
    }
    out
}

} // verus!

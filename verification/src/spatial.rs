use vstd::prelude::*;
use rdst::RadixSort;

verus! {

/// A particle's cell key and the particle's index, ordered by the key.
#[derive(Copy, Clone, Debug, PartialEq, Eq, Structural)]
pub struct SortableTuple {
    pub key: u32,
    pub val: u32,
}

impl SortableTuple {
    pub fn new(key: u32, val: u32) -> (r: Self)
        ensures
            r.key == key,
            r.val == val,
    {
        Self { key: key, val: val }
    }

    /// Byte `level` of the key, least significant first: the digit that radix pass `level` sorts on.
    pub fn get_level(&self, level: usize) -> (r: u8)
        requires
            level < 4,
        ensures
            r as u32 == (self.key >> ((8 * level) as u32)) & 0xffu32,
    {
        let shift = (level * 8) as u32;
        let byte = (self.key >> shift) as u8;
        proof {
            let k = self.key;
            assert(((k >> shift) as u8) as u32 == (k >> shift) & 0xffu32) by (bit_vector);
        }
        byte
    }
}

/// `a` comes no later than `b` when ordering by key, then by index.
pub open spec fn tuple_le(a: SortableTuple, b: SortableTuple) -> bool {
    a.key < b.key || (a.key == b.key && a.val <= b.val)
}

/// Ordering by key, then index, is a total order on tuples in which a tuple never comes after one
/// with a larger key.
pub proof fn lemma_tuple_order(a: SortableTuple, b: SortableTuple, c: SortableTuple)
    ensures
        tuple_le(a, a),
        tuple_le(a, b) || tuple_le(b, a),
        tuple_le(a, b) && tuple_le(b, a) ==> a == b,
        tuple_le(a, b) && tuple_le(b, c) ==> tuple_le(a, c),
        tuple_le(a, b) ==> a.key <= b.key,
        a.key < b.key ==> tuple_le(a, b) && !tuple_le(b, a),
{
}

/// The 64-bit value whose high half is the key and whose low half is the index.
pub open spec fn pack(t: SortableTuple) -> u64 {
    ((t.key as u64) << 32u64) | (t.val as u64)
}

pub open spec fn unpack(p: u64) -> SortableTuple {
    SortableTuple { key: (p >> 32u64) as u32, val: (p & 0xffff_ffffu64) as u32 }
}

proof fn lemma_pack_unpack(key: u32, val: u32)
    by (bit_vector)
    ensures
        ((((key as u64) << 32u64) | (val as u64)) >> 32u64) as u32 == key,
        ((((key as u64) << 32u64) | (val as u64)) & 0xffff_ffffu64) as u32 == val,
{
}

proof fn lemma_unpack_order(p: u64, q: u64)
    by (bit_vector)
    requires
        p <= q,
    ensures
        ((p >> 32u64) as u32) < ((q >> 32u64) as u32) || (((p >> 32u64) as u32) == ((q
            >> 32u64) as u32) && ((p & 0xffff_ffffu64) as u32) <= ((q & 0xffff_ffffu64) as u32)),
{
}

/// Equal multisets stay equal when every element goes through the same function.
proof fn lemma_map_keeps_multiset<A, B>(s1: Seq<A>, s2: Seq<A>, f: spec_fn(A) -> B)
    requires
        s1.to_multiset() =~= s2.to_multiset(),
    ensures
        s1.map_values(f).to_multiset() =~= s2.map_values(f).to_multiset(),
    decreases s1.len(),
{
    broadcast use vstd::seq_lib::group_to_multiset_ensures;

    if s1.len() == 0 {
        assert(s2.to_multiset().len() == 0);
        assert(s2.len() == 0);
        assert(s1.map_values(f) =~= Seq::<B>::empty());
        assert(s2.map_values(f) =~= Seq::<B>::empty());
    } else {
        let x = s1.last();
        assert(s1.to_multiset().contains(x)) by {
            assert(s1.contains(x)) by {
                assert(s1[s1.len() - 1] == x);
            }
        }
        assert(s2.contains(x));
        let i = choose|i: int| 0 <= i < s2.len() && s2[i] == x;
        let s1p = s1.drop_last();
        let s2p = s2.remove(i);
        vstd::seq_lib::to_multiset_remove(s1, s1.len() - 1);
        assert(s1.remove(s1.len() - 1) =~= s1p);
        vstd::seq_lib::to_multiset_remove(s2, i);
        lemma_map_keeps_multiset(s1p, s2p, f);
        assert(s1.map_values(f) =~= s1p.map_values(f).push(f(x)));
        assert(s2.map_values(f) =~= s2p.map_values(f).insert(i, f(x)));
        vstd::seq_lib::to_multiset_insert(s2p.map_values(f), i, f(x));
        assert(s1p.map_values(f).push(f(x)) =~= s1p.map_values(f).insert(
            s1p.map_values(f).len() as int,
            f(x),
        ));
        vstd::seq_lib::to_multiset_insert(
            s1p.map_values(f),
            s1p.map_values(f).len() as int,
            f(x),
        );
    }
}

/// Sorts with rdst's `RadixSort::radix_sort_unstable` on a `Vec<u64>`: afterwards the vector holds
/// the same values, in nondecreasing order.
#[verifier::external_body]
fn radix_sort_values(values: &mut Vec<u64>)
    ensures
        final(values)@.to_multiset() == old(values)@.to_multiset(),
        forall|i: int, j: int|
            0 <= i <= j < final(values)@.len() ==> final(values)@[i] <= final(values)@[j],
{
    values.radix_sort_unstable();
}

/// Sorts the first `count` tuples by key, and tuples of equal key by index; the rest stay put.
pub fn sort_tuples(tuples: &mut Vec<SortableTuple>, count: usize)
    requires
        count <= old(tuples).len(),
    ensures
        final(tuples).len() == old(tuples).len(),
        final(tuples)@.take(count as int).to_multiset() == old(tuples)@.take(count as int).to_multiset(),
        forall|i: int, j: int|
            0 <= i <= j < count ==> tuple_le(#[trigger] final(tuples)@[i], #[trigger] final(tuples)@[j]),
        forall|i: int| count <= i < final(tuples).len() ==> #[trigger] final(tuples)@[i] == old(tuples)@[i],
{
    let ghost original = tuples@;
    let mut packed: Vec<u64> = Vec::new();
    let mut k: usize = 0;
    while k < count
        invariant
            count <= tuples.len(),
            tuples@ == original,
            k <= count,
            packed@ == original.take(k as int).map_values(|t: SortableTuple| pack(t)),
        decreases count - k,
    {
        let t = tuples[k];
        packed.push(((t.key as u64) << 32u64) | (t.val as u64));
        proof {
            assert(original.take(k + 1) =~= original.take(k as int).push(t));
            assert(packed@ =~= original.take(k + 1).map_values(|t: SortableTuple| pack(t)));
        }
        k += 1;
    }
    let ghost unsorted = packed@;
    radix_sort_values(&mut packed);
    proof {
        broadcast use vstd::seq_lib::group_to_multiset_ensures;

        assert(packed@.to_multiset().len() == unsorted.to_multiset().len());
        assert(unsorted.len() == count);
    }
    let mut k: usize = 0;
    while k < count
        invariant
            count <= tuples.len(),
            tuples.len() == original.len(),
            packed.len() == count,
            k <= count,
            forall|i: int| 0 <= i < k ==> #[trigger] tuples@[i] == unpack(packed@[i]),
            forall|i: int| k <= i < tuples.len() ==> #[trigger] tuples@[i] == original[i],
        decreases count - k,
    {
        let p = packed[k];
        let t = SortableTuple { key: (p >> 32u64) as u32, val: (p & 0xffff_ffffu64) as u32 };
        tuples.set(k, t);
        k += 1;
    }
    proof {
        let f = |p: u64| unpack(p);
        assert(tuples@.take(count as int) =~= packed@.map_values(f));
        lemma_map_keeps_multiset(packed@, unsorted, f);
        assert forall|i: int| 0 <= i < count implies #[trigger] unsorted.map_values(f)[i] == original.take(
            count as int,
        )[i] by {
            let t = original[i];
            lemma_pack_unpack(t.key, t.val);
        }
        assert(unsorted.map_values(f) =~= original.take(count as int));
        assert forall|i: int, j: int| 0 <= i <= j < count implies tuple_le(
            #[trigger] tuples@[i],
            #[trigger] tuples@[j],
        ) by {
            lemma_unpack_order(packed@[i], packed@[j]);
        }
    }
}


/// The keys of the tuples never decrease.
pub open spec fn keys_sorted(s: Seq<SortableTuple>) -> bool {
    forall|i: int, j: int| 0 <= i <= j < s.len() ==> #[trigger] s[i].key <= #[trigger] s[j].key
}

/// The entry of the key of tuple `i` starts at the first tuple of the run of equal keys that
/// holds `i`.
pub open spec fn run_start_ok(s: Seq<SortableTuple>, lookup: Seq<(u32, u32)>, i: int) -> bool {
    let a = lookup[s[i].key as int].0 as int;
    0 <= a <= i && s[a].key == s[i].key && (a == 0 || s[a - 1].key != s[i].key)
}

/// The entry of the key of tuple `i` ends just after the run that holds `i`; the last run ends at
/// `end`.
pub open spec fn run_end_ok(s: Seq<SortableTuple>, lookup: Seq<(u32, u32)>, end: u32, i: int) -> bool {
    let b = lookup[s[i].key as int].1 as int;
    ||| (i < b < s.len() && s[b].key != s[i].key && s[b - 1].key == s[i].key)
    ||| (b == end && forall|j: int| i <= j < s.len() ==> #[trigger] s[j].key == s[i].key)
}

/// The lookup table of a sorted tuple list: for each key that occurs, the range of positions that
/// hold it; `(u32::MAX, u32::MAX)` for a key that does not occur.
pub open spec fn lookup_built(s: Seq<SortableTuple>, lookup: Seq<(u32, u32)>, end: u32) -> bool {
    &&& forall|i: int| 0 <= i < s.len() ==> #[trigger] run_start_ok(s, lookup, i)
    &&& forall|i: int| 0 <= i < s.len() ==> #[trigger] run_end_ok(s, lookup, end, i)
    &&& forall|h: int|
        0 <= h < lookup.len() && (forall|i: int| 0 <= i < s.len() ==> #[trigger] s[i].key != h)
            ==> #[trigger] lookup[h] == (u32::MAX, u32::MAX)
}

/// Fills the lookup table of a list of tuples sorted by key: each key that occurs gets the range
/// of positions holding it, the last range ending at `end`; every other key gets
/// `(u32::MAX, u32::MAX)`.
pub fn build_lookup(sorted: &Vec<SortableTuple>, lookup: &mut Vec<(u32, u32)>, end: u32)
    requires
        keys_sorted(sorted@),
        old(lookup).len() <= u32::MAX,
        sorted.len() <= u32::MAX,
        forall|i: int| 0 <= i < sorted.len() ==> #[trigger] sorted@[i].key < old(lookup).len(),
    ensures
        final(lookup).len() == old(lookup).len(),
        lookup_built(sorted@, final(lookup)@, end),
{
    let s = Ghost(sorted@);
    let mut h: usize = 0;
    while h < lookup.len()
        invariant
            h <= lookup.len(),
            lookup.len() == old(lookup).len(),
            forall|m: int| 0 <= m < h ==> #[trigger] lookup@[m] == (u32::MAX, u32::MAX),
        decreases lookup.len() - h,
    {
        lookup.set(h, (u32::MAX, u32::MAX));
        h += 1;
    }
    let mut previous_hash: u32 = u32::MAX;
    let mut index: usize = 0;
    while index < sorted.len()
        invariant
            keys_sorted(sorted@),
            lookup.len() == old(lookup).len(),
            lookup.len() <= u32::MAX,
            sorted.len() <= u32::MAX,
            forall|i: int| 0 <= i < sorted.len() ==> #[trigger] sorted@[i].key < lookup.len(),
            index <= sorted.len(),
            previous_hash == (if index == 0 { u32::MAX } else { sorted@[index - 1].key }),
            forall|i: int| 0 <= i < index ==> #[trigger] run_start_ok(sorted@, lookup@, i),
            forall|i: int|
                0 <= i < index && sorted@[i].key != previous_hash ==> #[trigger] run_end_ok(
                    sorted@,
                    lookup@,
                    end,
                    i,
                ),
            forall|hh: int|
                0 <= hh < lookup.len() && (forall|i: int|
                    0 <= i < index ==> #[trigger] sorted@[i].key != hh) ==> #[trigger] lookup@[hh]
                    == (u32::MAX, u32::MAX),
        decreases sorted.len() - index,
    {
        let hash = sorted[index].key;
        let ghost before = lookup@;
        if previous_hash != hash {
            if previous_hash != u32::MAX {
                let entry = lookup[previous_hash as usize];
                lookup.set(previous_hash as usize, (entry.0, index as u32));
            }
            proof {
                assert forall|i: int| 0 <= i < index implies #[trigger] sorted@[i].key != hash by {
                    assert(sorted@[i].key <= sorted@[index - 1].key);
                    assert(sorted@[index - 1].key <= sorted@[index as int].key);
                }
                assert(lookup@[hash as int] == (u32::MAX, u32::MAX));
            }
            let entry = lookup[hash as usize];
            lookup.set(hash as usize, (index as u32, entry.1));
            previous_hash = hash;
            proof {
                assert forall|i: int| 0 <= i < index + 1 implies #[trigger] run_start_ok(
                    sorted@,
                    lookup@,
                    i,
                ) by {
                    if i < index {
                        assert(run_start_ok(sorted@, before, i));
                        assert(sorted@[i].key != hash);
                    }
                }
                assert forall|i: int|
                    0 <= i < index + 1 && sorted@[i].key != previous_hash implies #[trigger] run_end_ok(
                    sorted@,
                    lookup@,
                    end,
                    i,
                ) by {
                    assert(i < index);
                    if sorted@[i].key == sorted@[index - 1].key {
                        assert(sorted@[index as int].key != sorted@[i].key);
                    } else {
                        assert(run_end_ok(sorted@, before, end, i));
                    }
                }
                assert forall|hh: int|
                    0 <= hh < lookup.len() && (forall|i: int|
                        0 <= i < index + 1 ==> #[trigger] sorted@[i].key != hh) implies #[trigger] lookup@[hh]
                    == (u32::MAX, u32::MAX) by {
                    assert(sorted@[index as int].key != hh);
                    if index > 0 {
                        assert(sorted@[index - 1].key != hh);
                    }
                }
            }
        } else {
            proof {
                assert(run_start_ok(sorted@, lookup@, index - 1));
                assert forall|hh: int|
                    0 <= hh < lookup.len() && (forall|i: int|
                        0 <= i < index + 1 ==> #[trigger] sorted@[i].key != hh) implies #[trigger] lookup@[hh]
                    == (u32::MAX, u32::MAX) by {
                    assert(sorted@[index as int].key != hh);
                }
            }
        }
        index += 1;
    }
    if previous_hash != u32::MAX {
        let ghost before = lookup@;
        let entry = lookup[previous_hash as usize];
        lookup.set(previous_hash as usize, (entry.0, end));
        proof {
            let n = sorted.len() as int;
            assert forall|i: int| 0 <= i < n implies #[trigger] run_start_ok(sorted@, lookup@, i) by {
                assert(run_start_ok(sorted@, before, i));
            }
            assert forall|i: int| 0 <= i < n implies #[trigger] run_end_ok(sorted@, lookup@, end, i) by {
                if sorted@[i].key == previous_hash {
                    assert forall|j: int| i <= j < n implies #[trigger] sorted@[j].key == sorted@[i].key by {
                        assert(sorted@[i].key <= sorted@[j].key);
                        assert(sorted@[j].key <= sorted@[n - 1].key);
                    }
                } else {
                    assert(run_end_ok(sorted@, before, end, i));
                }
            }
            assert forall|hh: int|
                0 <= hh < lookup.len() && (forall|i: int|
                    0 <= i < n ==> #[trigger] sorted@[i].key != hh) implies #[trigger] lookup@[hh]
                == (u32::MAX, u32::MAX) by {
                assert(sorted@[n - 1].key != hh);
            }
        }
    }
}

/// The lane that tuple `t` points at: lane `t.val % 8` of chunk `t.val / 8`.
pub open spec fn source_lane<T>(source: Seq<[T; 8]>, t: SortableTuple) -> T {
    source[(t.val / 8) as int][(t.val % 8) as int]
}

fn read_lane<T: Copy>(source: &Vec<[T; 8]>, t: SortableTuple) -> (r: T)
    requires
        t.val / 8 < source.len(),
    ensures
        r == source_lane(source@, t),
{
    let payload = t.val;
    let chunk_index = (payload >> 3) as usize;
    let lane = (payload & 7) as usize;
    proof {
        assert(payload >> 3 == payload / 8) by (bit_vector);
        assert(payload & 7 == payload % 8) by (bit_vector);
    }
    source[chunk_index][lane]
}

/// Gathers particle data into the order of `order`: chunk `q` of `target` receives the lanes that
/// tuples `8q` to `8q + 7` point at. Only whole chunks of eight tuples are written; the chunks
/// after them keep their contents.
pub fn reorder_lanes<T: Copy>(source: &Vec<[T; 8]>, target: &mut Vec<[T; 8]>, order: &Vec<SortableTuple>)
    requires
        forall|i: int| 0 <= i < order.len() ==> #[trigger] order@[i].val / 8 < source.len(),
        order.len() / 8 <= old(target).len(),
    ensures
        final(target).len() == old(target).len(),
        forall|q: int, l: int|
            0 <= q < order.len() / 8 && 0 <= l < 8 ==> #[trigger] final(target)@[q][l]
                == source_lane(source@, order@[8 * q + l]),
        forall|q: int|
            order.len() / 8 <= q < final(target).len() ==> #[trigger] final(target)@[q]
                == old(target)@[q],
{
    let chunks = order.len() / 8;
    let mut q: usize = 0;
    while q < chunks
        invariant
            chunks == order.len() / 8,
            chunks <= target.len(),
            target.len() == old(target).len(),
            forall|i: int| 0 <= i < order.len() ==> #[trigger] order@[i].val / 8 < source.len(),
            q <= chunks,
            forall|p: int, l: int|
                0 <= p < q && 0 <= l < 8 ==> #[trigger] target@[p][l] == source_lane(
                    source@,
                    order@[8 * p + l],
                ),
            forall|p: int| q <= p < target.len() ==> #[trigger] target@[p] == old(target)@[p],
        decreases chunks - q,
    {
        let base = q * 8;
        let chunk: [T; 8] = [
            read_lane(source, order[base]),
            read_lane(source, order[base + 1]),
            read_lane(source, order[base + 2]),
            read_lane(source, order[base + 3]),
            read_lane(source, order[base + 4]),
            read_lane(source, order[base + 5]),
            read_lane(source, order[base + 6]),
            read_lane(source, order[base + 7]),
        ];
        target.set(q, chunk);
        proof {
            assert forall|p: int, l: int| 0 <= p < q + 1 && 0 <= l < 8 implies #[trigger] target@[p][l]
                == source_lane(source@, order@[8 * p + l]) by {
                if p == q {
                    assert(chunk[l] == source_lane(source@, order@[8 * p + l]));
                }
            }
        }
        q += 1;
    }
}


/// The lookup of a sorted list names exactly the positions that hold a key: position `j` holds the
/// key of position `i` exactly when `j` lies in the range that the lookup gives for that key.
pub proof fn lemma_lookup_ranges(s: Seq<SortableTuple>, lookup: Seq<(u32, u32)>, i: int, j: int)
    requires
        keys_sorted(s),
        s.len() <= u32::MAX,
        lookup_built(s, lookup, s.len() as u32),
        0 <= i < s.len(),
        0 <= j < s.len(),
    ensures
        s[j].key == s[i].key <==> lookup[s[i].key as int].0 <= j < lookup[s[i].key as int].1,
{
    let k = s[i].key;
    let a = lookup[k as int].0 as int;
    let b = lookup[k as int].1 as int;
    assert(run_start_ok(s, lookup, i));
    assert(run_end_ok(s, lookup, s.len() as u32, i));
    if s[j].key == k {
        if j < a {
            assert(s[j].key <= s[a - 1].key);
            assert(s[a - 1].key <= s[a].key);
        }
        if b < s.len() && j >= b {
            assert(s[b].key <= s[j].key);
            assert(s[b - 1].key <= s[b].key);
        }
    }
    if a <= j < b {
        assert(s[a].key <= s[j].key);
        if b < s.len() && i < b && s[b].key != k && s[b - 1].key == k {
            assert(s[j].key <= s[b - 1].key);
        } else {
            if j < i {
                assert(s[j].key <= s[i].key);
            }
        }
    }
}

/// The four digits that the radix passes sort on make up the key, least significant first.
pub proof fn lemma_levels_make_key(key: u32)
    ensures
        key as int == ((key >> 0u32) & 0xffu32) + 256 * ((key >> 8u32) & 0xffu32) + 65536 * ((key
            >> 16u32) & 0xffu32) + 16777216 * ((key >> 24u32) & 0xffu32),
{
    assert(key as int == ((key >> 0u32) & 0xffu32) + 256 * ((key >> 8u32) & 0xffu32) + 65536 * ((key
        >> 16u32) & 0xffu32) + 16777216 * ((key >> 24u32) & 0xffu32)) by (bit_vector);
}

} // verus!

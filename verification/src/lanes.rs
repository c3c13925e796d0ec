use vstd::prelude::*;

verus! {

/// Reads the eight entries of `slice` that `indices` name.
pub fn gather_lanes<T: Copy>(slice: &[T], indices: [u32; 8]) -> (r: [T; 8])
    requires
        forall|l: int| 0 <= l < 8 ==> (#[trigger] indices[l] as int) < slice@.len(),
    ensures
        forall|l: int| 0 <= l < 8 ==> #[trigger] r[l] == slice@[indices[l] as int],
{
    [
        slice[indices[0] as usize],
        slice[indices[1] as usize],
        slice[indices[2] as usize],
        slice[indices[3] as usize],
        slice[indices[4] as usize],
        slice[indices[5] as usize],
        slice[indices[6] as usize],
        slice[indices[7] as usize],
    ]
}

/// `s` after writing `values[l]` at `indices[l]` for `l` from 0 to `n - 1`, in that order.
pub open spec fn scattered<T>(s: Seq<T>, values: Seq<T>, indices: Seq<u32>, n: int) -> Seq<T>
    decreases n,
{
    if n <= 0 {
        s
    } else {
        scattered(s, values, indices, n - 1).update(indices[n - 1] as int, values[n - 1])
    }
}

/// Writes the eight values at the entries that `indices` name, lane by lane, so that a later lane
/// wins when two lanes name the same entry.
pub fn scatter_lanes<T: Copy>(target: &mut Vec<T>, values: [T; 8], indices: [u32; 8])
    requires
        forall|l: int| 0 <= l < 8 ==> (#[trigger] indices[l] as int) < old(target)@.len(),
    ensures
        final(target)@ == scattered(old(target)@, values@, indices@, 8),
{
    let mut l: usize = 0;
    while l < 8
        invariant
            l <= 8,
            target@.len() == old(target)@.len(),
            forall|m: int| 0 <= m < 8 ==> (#[trigger] indices[m] as int) < old(target)@.len(),
            target@ == scattered(old(target)@, values@, indices@, l as int),
        decreases 8 - l,
    {
        target.set(indices[l] as usize, values[l]);
        l += 1;
    }

}

/// The number of lanes of chunk `chunk_index` that hold particles: eight, except in a last chunk
/// that the particles do not fill.
pub fn active_lanes(chunk_index: u32, num_chunks: u32, num_particles: u32) -> (r: u32)
    requires
        chunk_index < num_chunks,
    ensures
        r == (if chunk_index == num_chunks - 1 && num_particles % 8 != 0 {
            num_particles % 8
        } else {
            8
        }),
{
    if chunk_index == num_chunks - 1 && num_particles % 8 != 0 {
        num_particles % 8
    } else {
        8
    }
}

} // verus!

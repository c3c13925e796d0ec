use flip::spatial::{build_lookup, reorder_lanes, sort_tuples, SortableTuple};

fn tuples(pairs: &[(u32, u32)]) -> Vec<SortableTuple> {
    pairs.iter().map(|&(k, v)| SortableTuple::new(k, v)).collect()
}

#[test]
fn tuple_fields_and_levels() {
    let t = SortableTuple::new(0x1234_5678, 9);
    assert_eq!(t.key, 0x1234_5678);
    assert_eq!(t.val, 9);
    assert_eq!(t.get_level(0), 0x78);
    assert_eq!(t.get_level(1), 0x56);
    assert_eq!(t.get_level(2), 0x34);
    assert_eq!(t.get_level(3), 0x12);
}

#[test]
fn sorting_by_key_then_index() {
    let mut t = tuples(&[(5, 0), (1, 4), (5, 2), (0, 3), (1, 1)]);
    sort_tuples(&mut t, 5);
    assert_eq!(t, tuples(&[(0, 3), (1, 1), (1, 4), (5, 0), (5, 2)]));
}

#[test]
fn sorting_a_prefix_only() {
    let mut t = tuples(&[(9, 0), (3, 1), (1, 2), (0, 3)]);
    sort_tuples(&mut t, 2);
    assert_eq!(t, tuples(&[(3, 1), (9, 0), (1, 2), (0, 3)]));
    let mut u = tuples(&[(2, 0)]);
    sort_tuples(&mut u, 0);
    assert_eq!(u, tuples(&[(2, 0)]));
}

#[test]
fn sorting_large_keys() {
    let mut t = tuples(&[(u32::MAX, 1), (0, u32::MAX), (u32::MAX, 0), (0x8000_0000, 7)]);
    sort_tuples(&mut t, 4);
    assert_eq!(t, tuples(&[(0, u32::MAX), (0x8000_0000, 7), (u32::MAX, 0), (u32::MAX, 1)]));
}

#[test]
fn lookup_ranges_of_sorted_keys() {
    let sorted = tuples(&[(0, 3), (1, 1), (1, 4), (5, 0), (5, 2)]);
    let mut lookup = vec![(7u32, 7u32); 8];
    build_lookup(&sorted, &mut lookup, 5);
    let none = (u32::MAX, u32::MAX);
    assert_eq!(lookup, vec![(0, 1), (1, 3), none, none, none, (3, 5), none, none]);
}

#[test]
fn lookup_of_an_empty_list() {
    let mut lookup = vec![(0u32, 0u32); 3];
    build_lookup(&Vec::new(), &mut lookup, 0);
    assert_eq!(lookup, vec![(u32::MAX, u32::MAX); 3]);
}

#[test]
fn lookup_last_range_ends_at_the_given_end() {
    let sorted = tuples(&[(2, 0), (2, 1)]);
    let mut lookup = vec![(0u32, 0u32); 4];
    build_lookup(&sorted, &mut lookup, 9);
    assert_eq!(lookup[2], (0, 9));
}

#[test]
fn reordering_whole_chunks_only() {
    let source: Vec<[u32; 8]> = (0..2).map(|c| core::array::from_fn(|l| 10 * c + l as u32)).collect();
    let order = tuples(&[(0, 15), (0, 0), (0, 3), (0, 8), (0, 1), (0, 2), (0, 4), (0, 5), (0, 9)]);
    let mut target = vec![[99u32; 8]; 2];
    reorder_lanes(&source, &mut target, &order);
    assert_eq!(target[0], [17, 0, 3, 10, 1, 2, 4, 5]);
    assert_eq!(target[1], [99; 8]);
}

use flip::bitset::{list_flagged, read_flag, set_flag};
use flip::grid::{
    border_obstacles, coarse_cell, fine_cell, multigrid_sizes, next_power_of_two, pad_cells,
    seed_cells, split_red_black, u_face_index, u_index_simd, v_face_index, v_index_simd,
};
use flip::multigrid::MultiGridLevel;

#[test]
fn horizontal_faces_are_clamped() {
    assert_eq!(u_face_index(4, 3, 2, 1), 7);
    assert_eq!(u_face_index(4, 3, -3, 7), 10);
    assert_eq!(u_face_index(4, 3, 9, -1), 4);
    assert_eq!(u_face_index(4, 3, 4, 2), 14);
}

#[test]
fn vertical_faces_are_clamped() {
    assert_eq!(v_face_index(4, 3, 5, 5), 15);
    assert_eq!(v_face_index(4, 3, -1, 2), 8);
    assert_eq!(v_face_index(4, 3, 3, 3), 15);
    assert_eq!(v_face_index(4, 3, 0, 0), 0);
}

#[test]
fn face_indices_on_eight_lanes() {
    let i = [-1, 0, 1, 2, 3, 4, 5, 100];
    let j = [0, 1, 2, 3, -5, 0, 1, 2];
    assert_eq!(u_index_simd(4, 3, i, j), [0, 5, 11, 12, 3, 4, 9, 14]);
    assert_eq!(v_index_simd(4, 3, i, j), [0, 4, 9, 14, 3, 3, 7, 11]);
}

#[test]
fn border_cells_are_walls() {
    let walls = border_obstacles(4, 3);
    assert_eq!(walls, vec![4095u64 - (1 << 5) - (1 << 6)]);
    let big = border_obstacles(70, 2);
    assert_eq!(big.len(), 3);
    for c in 0..140usize {
        assert_eq!(read_flag(&big, c), 1);
    }
    for c in 140..192usize {
        assert_eq!(read_flag(&big, c), 0);
    }
}

#[test]
fn seed_cells_of_a_small_world() {
    let seeds = seed_cells(20, 20);
    let mut expected = Vec::new();
    for y in 5..10u32 {
        for x in 5..16u32 {
            expected.push((x, y));
        }
    }
    assert_eq!(seeds, expected);
    assert_eq!(seed_cells(8, 40), Vec::new());
    assert_eq!(seed_cells(0, 0), Vec::new());
}

#[test]
fn multigrid_level_sizes() {
    assert_eq!(multigrid_sizes(160, 90), vec![(80, 45)]);
    assert_eq!(multigrid_sizes(64, 64), vec![(32, 32), (16, 16), (8, 8), (4, 4)]);
    assert_eq!(multigrid_sizes(10, 12), vec![(5, 6)]);
    assert_eq!(multigrid_sizes(4, 4), Vec::new());
    assert_eq!(multigrid_sizes(7, 8), Vec::new());
}

#[test]
fn powers_of_two() {
    assert_eq!(next_power_of_two(0), 1);
    assert_eq!(next_power_of_two(1), 1);
    assert_eq!(next_power_of_two(5), 8);
    assert_eq!(next_power_of_two(8), 8);
    assert_eq!(next_power_of_two(160), 256);
    assert_eq!(next_power_of_two(0x8000_0000), 0x8000_0000);
}

#[test]
fn coarse_and_fine_cells() {
    assert_eq!(coarse_cell(29, 8, 4), 6);
    assert_eq!(fine_cell(6, 4, 8, 1, 1), 29);
    for c in 0..16u32 {
        for dx in 0..2u32 {
            for dy in 0..2u32 {
                assert_eq!(coarse_cell(fine_cell(c, 4, 8, dx, dy), 8, 4), c);
            }
        }
    }
}

#[test]
fn red_and_black_cells() {
    let (red, black) = split_red_black(&vec![0, 1, 5, 6], 4);
    assert_eq!(red, vec![0, 5]);
    assert_eq!(black, vec![1, 6]);
}

#[test]
fn neighbours_have_different_colours() {
    let all: Vec<u32> = (0..35).collect();
    let (red, _) = split_red_black(&all, 7);
    for y in 0..5u32 {
        for x in 0..7u32 {
            let c = y * 7 + x;
            if x + 1 < 7 {
                assert_ne!(red.contains(&c), red.contains(&(c + 1)));
            }
            if y + 1 < 5 {
                assert_ne!(red.contains(&c), red.contains(&(c + 7)));
            }
        }
    }
}

#[test]
fn padding_to_whole_chunks() {
    let mut a = vec![1, 2, 3];
    pad_cells(&mut a);
    assert_eq!(a, vec![1, 2, 3, 3, 3, 3, 3, 3]);
    let mut b: Vec<u32> = Vec::new();
    pad_cells(&mut b);
    assert!(b.is_empty());
    let mut c: Vec<u32> = (0..8).collect();
    pad_cells(&mut c);
    assert_eq!(c, (0..8).collect::<Vec<u32>>());
    let mut d: Vec<u32> = (0..9).collect();
    pad_cells(&mut d);
    assert_eq!(d.len(), 16);
    assert_eq!(d[15], 8);
}

#[test]
fn fresh_level_is_empty() {
    let level = MultiGridLevel::new(10, 3);
    assert_eq!(level.cells, 30);
    assert_eq!(level.type_fluid.len(), 1);
    assert_eq!(level.diag_laplacian.len(), 32);
    assert!(level.fluid_indices.is_empty());
    assert_eq!(level.is_fluid_index(7), 0);
}

#[test]
fn coarsening_a_block_of_cells() {
    let mut level = MultiGridLevel::new(4, 4);
    level.coarsen_from(&vec![0, 2, 16, 18, 18], 8);
    assert_eq!(level.fluid_indices, vec![0, 1, 4, 5]);
    assert_eq!(level.red_indices, vec![0, 5]);
    assert_eq!(level.black_indices, vec![1, 4]);
    assert_eq!(list_flagged(&level.type_fluid), vec![0, 1, 4, 5]);
    assert_eq!(&level.diag_laplacian[0..6], &[2, 2, 0, 0, 2, 2]);
    assert_eq!(&level.plus_x_laplacian[0..6], &[-1, 0, 0, 0, -1, 0]);
    assert_eq!(&level.plus_y_laplacian[0..6], &[-1, -1, 0, 0, 0, 0]);
    for c in 6..16 {
        assert_eq!(level.diag_laplacian[c], 0);
    }
}

#[test]
fn coarse_stencil_rows_sum_to_zero() {
    let mut level = MultiGridLevel::new(4, 4);
    level.coarsen_from(&vec![0, 2, 4, 16, 18, 36, 38, 54], 8);
    let w = 4usize;
    for &c in &level.fluid_indices {
        let c = c as usize;
        let mut sum = level.diag_laplacian[c] as i32
            + level.plus_x_laplacian[c] as i32
            + level.plus_y_laplacian[c] as i32;
        if c % w > 0 {
            sum += level.plus_x_laplacian[c - 1] as i32;
        }
        if c / w > 0 {
            sum += level.plus_y_laplacian[c - w] as i32;
        }
        assert_eq!(sum, 0);
    }
}

#[test]
fn rebuilding_clears_the_old_contents() {
    let mut level = MultiGridLevel::new(4, 4);
    level.coarsen_from(&vec![0, 2, 16, 18], 8);
    level.coarsen_from(&vec![63], 8);
    assert_eq!(level.fluid_indices, vec![15]);
    assert_eq!(level.diag_laplacian[0], 0);
    assert_eq!(level.plus_x_laplacian[0], 0);
    let mut words = vec![0u64; 1];
    set_flag(&mut words, 15);
    assert_eq!(level.type_fluid, words);
}

#[test]
fn level_with_no_columns() {
    let level = MultiGridLevel::new(0, 5);
    assert_eq!(level.cells, 0);
    assert!(level.type_fluid.is_empty());
    assert!(level.diag_laplacian.is_empty());
    assert!(level.fluid_indices.is_empty());
}

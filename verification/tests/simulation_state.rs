use flip::apic::Apic;
use flip::bitset::list_flagged;
use flip::faces::{face_kind, gravity_faces, grow_valid, valid_neighbours, FaceKind};
use flip::flip::Flip;
use flip::lanes::{active_lanes, gather_lanes, scatter_lanes};

#[test]
fn fresh_apic_world() {
    let apic = Apic::new(32, 32);
    assert_eq!(apic.cells, 1024);
    assert_eq!(apic.num_particles, 9 * 23 * 11);
    assert_eq!(apic.num_chunks, 285);
    assert_eq!(apic.part_sort.len(), 2277);
    assert_eq!(apic.part_lookup.len(), 1024);
    assert_eq!(apic.mac_fluid_index.len(), 1024);
    let sizes: Vec<(usize, usize)> = apic.multigrid_levels.iter().map(|l| (l.width, l.height)).collect();
    assert_eq!(sizes, vec![(16, 16), (8, 8), (4, 4)]);
    assert_eq!(apic.fluid_cells, 0);
    assert_eq!(apic.timestamp, 0);
}

#[test]
fn apic_walls_and_bounds() {
    let apic = Apic::new(32, 32);
    assert_eq!(apic.is_obstacle(0, 0), 1);
    assert_eq!(apic.is_obstacle(31, 5), 1);
    assert_eq!(apic.is_obstacle(1, 1), 0);
    assert_eq!(apic.is_obstacle(-1, 5), 1);
    assert_eq!(apic.is_obstacle(32, 0), 1);
    assert_eq!(apic.is_fluid(5, 5), 0);
    assert_eq!(apic.is_fluid(-1, 5), 0);
    assert_eq!(apic.u_index(-4, 40), 31 * 33);
    assert_eq!(apic.v_index(40, -4), 31);
}

#[test]
fn apic_world_without_particles() {
    let apic = Apic::new(8, 8);
    assert_eq!(apic.num_particles, 0);
    assert_eq!(apic.num_chunks, 0);
    assert_eq!(apic.part_sort.len(), 32);
    assert_eq!(apic.part_lookup.len(), 32);
    assert!(apic.multigrid_levels.is_empty());
}

#[test]
fn marking_fluid_cells_skips_walls() {
    let mut apic = Apic::new(8, 8);
    apic.mark_fluid_cells(&vec![(1, 1), (2, 1), (0, 0), (1, 1), (3, 2)]);
    assert_eq!(list_flagged(&apic.base_grid.type_fluid), vec![9, 10, 19]);
    assert_eq!(apic.mac_fluid_index, vec![9, 10, 19, 19, 19, 19, 19, 19]);
    assert_eq!(apic.fluid_cells, 3);
    assert_eq!(apic.base_grid.red_indices, vec![9]);
    assert_eq!(apic.base_grid.black_indices, vec![10, 19]);
    assert_eq!(apic.is_fluid(1, 1), 1);
    assert_eq!(apic.is_fluid(0, 0), 0);
    assert_eq!(apic.is_fluid_index(19), 1);
}

#[test]
fn marking_no_cells_empties_the_lists() {
    let mut apic = Apic::new(8, 8);
    apic.mark_fluid_cells(&vec![(1, 1)]);
    apic.mark_fluid_cells(&Vec::new());
    assert!(apic.mac_fluid_index.is_empty());
    assert_eq!(apic.fluid_cells, 0);
    assert!(apic.base_grid.red_indices.is_empty());
}

#[test]
fn rebuilding_the_hierarchy() {
    let mut apic = Apic::new(32, 32);
    apic.mark_fluid_cells(&vec![(4, 4), (5, 4), (4, 5), (30, 30)]);
    apic.update_multilevel_grid();
    assert_eq!(apic.multigrid_levels[0].fluid_indices, vec![34, 255]);
    assert_eq!(apic.multigrid_levels[1].fluid_indices, vec![9, 63]);
    assert_eq!(apic.multigrid_levels[2].fluid_indices, vec![0, 15]);
    assert_eq!(apic.multigrid_levels[2].red_indices, vec![0, 15]);
    assert!(apic.multigrid_levels[2].black_indices.is_empty());
    assert_eq!(apic.multigrid_levels[1].red_indices, vec![9, 63]);
    assert_eq!(apic.multigrid_levels[0].red_indices, vec![34, 255]);
}

#[test]
fn spatial_lookup_groups_particles_by_cell() {
    let mut apic = Apic::new(20, 20);
    let n = apic.num_particles as usize;
    assert_eq!(n, 495);
    let chunks = apic.num_chunks as usize;
    let mut gx = vec![[0u32; 8]; chunks];
    let mut gy = vec![[0u32; 8]; chunks];
    for p in 0..n {
        gx[p / 8][p % 8] = ((p * 7) % 20) as u32;
        gy[p / 8][p % 8] = ((p / 3) % 20) as u32;
    }
    apic.update_spatial_lookup(&gx, &gy);
    let keys: Vec<u32> = apic.part_sort.iter().map(|t| t.key).collect();
    for i in 1..n {
        assert!(keys[i - 1] <= keys[i]);
    }
    let mut vals: Vec<u32> = apic.part_sort.iter().map(|t| t.val).collect();
    vals.sort();
    assert_eq!(vals, (0..n as u32).collect::<Vec<u32>>());
    for t in &apic.part_sort {
        let p = t.val as usize;
        let x = gx[p / 8][p % 8];
        let y = gy[p / 8][p % 8];
        assert_eq!(t.key, flip::morton::morton_code_lane(x, y));
        let (start, end) = apic.part_lookup[t.key as usize];
        let position = apic.part_sort.iter().position(|s| s == t).unwrap();
        assert!(start as usize <= position && position < end as usize);
    }
    for (key, &(start, end)) in apic.part_lookup.iter().enumerate() {
        if start == u32::MAX {
            assert_eq!(end, u32::MAX);
            assert!(!keys.contains(&(key as u32)));
        } else {
            for i in start..end {
                assert_eq!(keys[i as usize], key as u32);
            }
        }
    }
}

#[test]
fn fresh_flip_world() {
    let flip = Flip::new(20, 20);
    assert_eq!(flip.cells, 400);
    assert_eq!(flip.num_particles, 495);
    assert_eq!(flip.num_chunks, 62);
    assert_eq!(flip.mac_type_obstacle.len(), 7);
    assert_eq!(flip.is_obstacle(19, 3), 1);
    assert_eq!(flip.is_obstacle(18, 3), 0);
    assert_eq!(list_flagged(&flip.mac_type_fluid), Vec::new());
    let empty = Flip::new(6, 6);
    assert_eq!(empty.num_particles, 0);
    assert_eq!(empty.num_chunks, 0);
}

#[test]
fn flip_pressure_stencil() {
    let mut flip = Flip::new(20, 20);
    flip.mark_fluid_cells(&vec![(1, 1), (2, 1), (0, 5)]);
    assert_eq!(list_flagged(&flip.mac_type_fluid), vec![21, 22]);
    assert_eq!(flip.is_fluid(2, 1), 1);
    assert_eq!(flip.is_fluid(20, 1), 0);
    assert_eq!(flip.is_fluid_index(22), 1);
    let (diag, plus_x, plus_y) = flip.laplacian_stencil();
    assert_eq!(diag.len(), 400);
    assert_eq!((diag[21], plus_x[21], plus_y[21]), (2, -1, 0));
    assert_eq!((diag[22], plus_x[22], plus_y[22]), (3, 0, 0));
    assert_eq!(diag.iter().filter(|&&d| d != 0).count(), 2);
    assert_eq!(flip.u_index(21, 0), 20);
    assert_eq!(flip.v_index(0, 21), 400);
}

#[test]
fn valid_neighbours_on_a_face_grid() {
    let valid = vec![true, false, false, false, true, false];
    assert_eq!(valid_neighbours(&valid, 3, 2, 1), vec![0, 4]);
    assert_eq!(valid_neighbours(&valid, 3, 2, 2), Vec::<usize>::new());
    assert_eq!(valid_neighbours(&valid, 3, 2, 3), vec![4, 0]);
    assert_eq!(grow_valid(&valid, 3, 2), vec![true, true, false, true, true, true]);
}

#[test]
fn growing_keeps_faces_beyond_the_grid() {
    let valid = vec![false, true, false, true];
    assert_eq!(grow_valid(&valid, 1, 2), vec![true, true, false, true]);
}

#[test]
fn gravity_acts_next_to_fluid() {
    let mut fluid = vec![0u64; 1];
    flip::bitset::set_flag(&mut fluid, 0);
    assert_eq!(gravity_faces(&fluid, 2, 2), vec![true, false, true, false, false, false]);
}

#[test]
fn classifying_faces() {
    assert_eq!(face_kind(1, 0, 1, 1), FaceKind::Wall);
    assert_eq!(face_kind(0, 1, 0, 0), FaceKind::Wall);
    assert_eq!(face_kind(0, 0, 1, 1), FaceKind::BothFluid);
    assert_eq!(face_kind(1, 1, 0, 0), FaceKind::NoFluid);
    assert_eq!(face_kind(0, 0, 1, 0), FaceKind::FirstFluid);
    assert_eq!(face_kind(0, 0, 0, 1), FaceKind::SecondFluid);
}

#[test]
fn gathering_and_scattering_lanes() {
    let data = [10, 20, 30];
    assert_eq!(gather_lanes(&data, [2, 0, 1, 1, 0, 2, 2, 0]), [30, 10, 20, 20, 10, 30, 30, 10]);
    let mut target = vec![0u32; 4];
    scatter_lanes(&mut target, [1, 2, 3, 4, 5, 6, 7, 8], [0, 1, 0, 2, 3, 3, 1, 0]);
    assert_eq!(target, vec![8, 7, 4, 6]);
    let floats = [0.5f32, 1.5];
    assert_eq!(gather_lanes(&floats, [1, 1, 0, 0, 1, 0, 1, 0]), [1.5, 1.5, 0.5, 0.5, 1.5, 0.5, 1.5, 0.5]);
}

#[test]
fn lanes_of_the_last_chunk() {
    assert_eq!(active_lanes(4, 5, 37), 5);
    assert_eq!(active_lanes(3, 5, 37), 8);
    assert_eq!(active_lanes(4, 5, 40), 8);
}

#[test]
fn four_rounds_reach_manhattan_distance_four() {
    let (columns, rows) = (11usize, 9usize);
    let mut valid = vec![false; columns * rows];
    valid[4 * columns + 5] = true;
    for _ in 0..4 {
        valid = grow_valid(&valid, columns, rows);
    }
    for y in 0..rows {
        for x in 0..columns {
            let distance = (x as i64 - 5).abs() + (y as i64 - 4).abs();
            assert_eq!(valid[y * columns + x], distance <= 4, "face ({}, {})", x, y);
        }
    }
}

#[test]
fn growth_stops_at_the_grid_edge() {
    let (columns, rows) = (4usize, 3usize);
    let mut valid = vec![false; columns * rows];
    valid[0] = true;
    for _ in 0..2 {
        valid = grow_valid(&valid, columns, rows);
    }
    assert_eq!(
        valid,
        vec![true, true, true, false, true, true, false, false, true, false, false, false]
    );
}

#[test]
fn long_apic_world_without_particles() {
    let apic = Apic::new(40000, 11);
    assert_eq!(apic.num_particles, 0);
    assert_eq!(apic.num_chunks, 0);
    assert!(apic.multigrid_levels.is_empty());
    assert_eq!(apic.is_obstacle(0, 5), 1);
    assert_eq!(apic.is_obstacle(39999, 5), 1);
    assert_eq!(apic.is_obstacle(20000, 0), 1);
    assert_eq!(apic.is_obstacle(20000, 10), 1);
    assert_eq!(apic.is_obstacle(20000, 5), 0);
    assert_eq!(apic.part_lookup.len(), 220000);
}

#[test]
fn fresh_apic_grids_are_blank() {
    let apic = Apic::new(32, 32);
    assert!(apic.mac_fluid_index.iter().all(|&c| c == 0));
    for level in std::iter::once(&apic.base_grid).chain(apic.multigrid_levels.iter()) {
        assert!(level.type_fluid.iter().all(|&w| w == 0));
        assert!(level.fluid_indices.is_empty());
        assert!(level.red_indices.is_empty());
        assert!(level.black_indices.is_empty());
        assert!(level.diag_laplacian.iter().all(|&d| d == 0));
        assert!(level.plus_x_laplacian.iter().all(|&d| d == 0));
        assert!(level.plus_y_laplacian.iter().all(|&d| d == 0));
    }
}

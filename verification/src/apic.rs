use vstd::prelude::*;
use crate::bitset::{cell_flag, clear_flags, flagged_cells, lemma_flagged_upto, list_flagged, set_flag};
use crate::grid::{
    black_cells, border_obstacles, dims_fit, grid_flag, in_grid, red_cells, lemma_cell_index, level_sizes,
    multigrid_sizes, next_power_of_two, on_border, pad_cells, pad_to_chunks, seed_cells,
    seed_rows, split_red_black, u_face_index, v_face_index, words_for, clamp,
};
use crate::morton::{interleave, lemma_morton_bound, morton_code};
use crate::multigrid::{chunked_len, MultiGridLevel};
use crate::spatial::{
    build_lookup, keys_sorted, lookup_built, sort_tuples, tuple_le, SortableTuple,
};

verus! {

/// Copies a list of cells.
pub fn copy_cells(cells: &Vec<u32>) -> (r: Vec<u32>)
    ensures
        r@ == cells@,
{
    let mut r: Vec<u32> = Vec::new();
    let mut k: usize = 0;
    while k < cells.len()
        invariant
            k <= cells.len(),
            r@ == cells@.take(k as int),
        decreases cells.len() - k,
    {
        r.push(cells[k]);
        proof {
            assert(cells@.take(k + 1) == cells@.take(k as int).push(cells@[k as int]));
        }
        k += 1;
    }
    proof {
        assert(cells@.take(cells.len() as int) == cells@);
    }
    r
}

/// The grid state of the APIC simulation that is not made of floating-point quantities: the grid
/// sizes, which cells are walls and which hold fluid, the fluid cells listed and coloured, the
/// multigrid hierarchy, the particle counts and the spatial lookup of particles by cell.
pub struct Apic {
    pub width: u32,
    pub height: u32,
    pub cells: u32,
    pub num_chunks: u32,
    pub num_particles: u32,
    pub mac_type_obstacle: Vec<u64>,
    pub mac_fluid_index: Vec<u32>,
    pub part_lookup: Vec<(u32, u32)>,
    pub part_sort: Vec<SortableTuple>,
    pub fluid_cells: u32,
    pub base_grid: MultiGridLevel,
    pub multigrid_levels: Vec<MultiGridLevel>,
    pub timestamp: u32,
}

/// Each level of a multigrid hierarchy is half as wide and half as high as the one above it,
/// the first being half the `width` by `height` grid.
pub open spec fn levels_chain(levels: Seq<MultiGridLevel>, width: int, height: int) -> bool {
    forall|k: int|
        0 <= k < levels.len() ==> {
            &&& #[trigger] levels[k].wf()
            &&& 2 * levels[k].width == (if k == 0 { width } else { levels[k - 1].width as int })
            &&& 2 * levels[k].height == (if k == 0 { height } else { levels[k - 1].height as int })
        }
}

/// `n` copies of the tuple `(0, 0)`.
fn zero_tuples(n: usize) -> (r: Vec<SortableTuple>)
    ensures
        r.len() == n,
        forall|i: int| 0 <= i < n ==> #[trigger] r@[i] == (SortableTuple { key: 0, val: 0 }),
{
    let mut r: Vec<SortableTuple> = Vec::new();
    while r.len() < n
        invariant
            r.len() <= n,
            forall|i: int| 0 <= i < r.len() ==> #[trigger] r@[i] == (SortableTuple { key: 0, val: 0 }),
        decreases n - r.len(),
    {
        r.push(SortableTuple::new(0, 0));
    }
    r
}

/// `n` copies of the empty range `(0, 0)`.
fn zero_ranges(n: usize) -> (r: Vec<(u32, u32)>)
    ensures
        r.len() == n,
        forall|i: int| 0 <= i < n ==> #[trigger] r@[i] == (0u32, 0u32),
{
    let mut r: Vec<(u32, u32)> = Vec::new();
    while r.len() < n
        invariant
            r.len() <= n,
            forall|i: int| 0 <= i < r.len() ==> #[trigger] r@[i] == (0u32, 0u32),
        decreases n - r.len(),
    {
        r.push((0, 0));
    }
    r
}

/// Each size of the list halves the one before it, the first halving `width` by `height`, and
/// keeps both sides at least one.
pub open spec fn sizes_halve(s: Seq<(usize, usize)>, width: int, height: int) -> bool {
    forall|k: int|
        0 <= k < s.len() ==> {
            &&& 2 * (#[trigger] s[k]).0 == (if k == 0 { width } else { s[k - 1].0 as int })
            &&& 2 * s[k].1 == (if k == 0 { height } else { s[k - 1].1 as int })
            &&& 1 <= s[k].0 < width
            &&& 1 <= s[k].1 < height
        }
}

/// Each multigrid level halves the sizes of the one above it and keeps both sides at least one.
proof fn lemma_level_sizes(width: int, height: int)
    requires
        1 <= width <= u32::MAX,
        1 <= height <= u32::MAX,
    ensures
        sizes_halve(level_sizes(width, height), width, height),
    decreases width,
{
    if width % 2 == 0 && height % 2 == 0 && width > 4 && height > 4 {
        lemma_level_sizes(width / 2, height / 2);
        let s = level_sizes(width, height);
        let t = level_sizes(width / 2, height / 2);
        assert(s == seq![((width / 2) as usize, (height / 2) as usize)] + t);
        assert(s[0].0 == width / 2 && s[0].1 == height / 2);
        assert forall|k: int| 0 <= k < s.len() implies {
            &&& 2 * (#[trigger] s[k]).0 == (if k == 0 { width } else { s[k - 1].0 as int })
            &&& 2 * s[k].1 == (if k == 0 { height } else { s[k - 1].1 as int })
            &&& 1 <= s[k].0 < width
            &&& 1 <= s[k].1 < height
        } by {
            if k > 0 {
                assert(s[k] == t[k - 1]);
                if k > 1 {
                    assert(s[k - 1] == t[k - 2]);
                }
            }
        }
    }
}

proof fn lemma_small_power(e: u32)
    by (bit_vector)
    requires
        e <= 31,
        (1u32 << e) < 65536u32,
    ensures
        e <= 15,
        (1u32 << e) <= 32768u32,
        (1u32 << e) * (1u32 << e) <= 0x40000000u32,
{
}

/// The lookup covers a power-of-two square, no larger than 2^15 on a side, that holds the grid.
#[verifier::opaque]
pub open spec fn lookup_sized(width: u32, height: u32, lookup_len: nat) -> bool {
    exists|e: u32|
        e <= 15 && (1u32 << e) >= width && (1u32 << e) >= height && lookup_len == (1u32 << e) * (1u32
            << e)
}

/// Every key of the sort table is 0, and the lookup has an entry for it.
#[verifier::opaque]
pub open spec fn idle_sort(part_sort: Seq<SortableTuple>, lookup_len: nat) -> bool {
    forall|i: int| 0 <= i < part_sort.len() ==> #[trigger] part_sort[i].key == 0 && 0 < lookup_len
}

impl Apic {
    /// The sizes and tables of the state agree with each other.
    pub open spec fn wf(&self) -> bool {
        &&& dims_fit(self.width as int, self.height as int)
        &&& self.cells == self.width * self.height
        &&& self.mac_type_obstacle.len() == words_for(self.cells as int)
        &&& self.base_grid.wf()
        &&& self.base_grid.width == self.width
        &&& self.base_grid.height == self.height
        &&& levels_chain(self.multigrid_levels@, self.width as int, self.height as int)
        &&& forall|k: int|
            0 <= k < self.mac_fluid_index.len() ==> #[trigger] self.mac_fluid_index@[k] < self.cells
        &&& self.num_particles <= self.part_sort.len()
        &&& self.part_sort.len() <= u32::MAX
        &&& self.part_lookup.len() <= u32::MAX
        &&& self.num_chunks * 8 == (if self.num_particles % 8 == 0 {
            self.num_particles as int
        } else {
            self.num_particles + 8 - self.num_particles % 8
        })
        &&& self.num_particles > 0 ==> self.part_sort.len() == self.num_particles && lookup_sized(
            self.width,
            self.height,
            self.part_lookup@.len(),
        )
        &&& self.num_particles == 0 ==> idle_sort(self.part_sort@, self.part_lookup@.len())
    }
}


/// The coarser multigrid levels below a `width` by `height` grid, each empty.
fn build_levels(width: u32, height: u32) -> (r: Vec<MultiGridLevel>)
    requires
        dims_fit(width as int, height as int),
    ensures
        levels_chain(r@, width as int, height as int),
        r.len() == level_sizes(width as int, height as int).len(),
        forall|k: int| 0 <= k < r.len() ==> (#[trigger] r@[k]).blank(),
        forall|k: int|
            0 <= k < r.len() ==> (#[trigger] r@[k]).width == level_sizes(width as int, height as int)[k].0
                && r@[k].height == level_sizes(width as int, height as int)[k].1,
{
    let sizes = multigrid_sizes(width as usize, height as usize);
    proof {
        lemma_level_sizes(width as int, height as int);
    }
    let mut multigrid_levels: Vec<MultiGridLevel> = Vec::new();
    let mut k: usize = 0;
    while k < sizes.len()
        invariant
            dims_fit(width as int, height as int),
            sizes@ == level_sizes(width as int, height as int),
            sizes_halve(sizes@, width as int, height as int),
            k <= sizes.len(),
            multigrid_levels.len() == k,
            levels_chain(multigrid_levels@, width as int, height as int),
            forall|j: int| 0 <= j < k ==> (#[trigger] multigrid_levels@[j]).blank(),
            forall|j: int|
                0 <= j < k ==> (#[trigger] multigrid_levels@[j]).width == sizes@[j].0
                    && multigrid_levels@[j].height == sizes@[j].1,
        decreases sizes.len() - k,
    {
        let (level_width, level_height) = sizes[k];
        proof {
            assert(1 <= level_width < width);
            assert(1 <= level_height < height);
            assert((level_width + 1) * (level_height + 1) <= (width + 1) * (height + 1))
                by (nonlinear_arith)
                requires
                    1 <= level_width < width,
                    1 <= level_height < height,
            ;
            assert(level_width * level_height <= (level_width + 1) * (level_height + 1))
                by (nonlinear_arith);
        }
        multigrid_levels.push(MultiGridLevel::new(level_width, level_height));
        proof {
            assert forall|j: int| 0 <= j < k + 1 implies {
                &&& #[trigger] multigrid_levels@[j].wf()
                &&& 2 * multigrid_levels@[j].width == (if j == 0 {
                    width as int
                } else {
                    multigrid_levels@[j - 1].width as int
                })
                &&& 2 * multigrid_levels@[j].height == (if j == 0 {
                    height as int
                } else {
                    multigrid_levels@[j - 1].height as int
                })
            } by {
                let s = level_sizes(width as int, height as int);
                assert(s[j] == sizes@[j]);
            }
        }
        k += 1;
    }
    multigrid_levels
}

impl Apic {
    /// The grid state of a fresh simulation on a `width` by `height` grid: the outer ring of cells
    /// is wall, nine particles are seeded in each seed cell, and, when there are particles, the
    /// spatial lookup covers the smallest power-of-two square that holds the grid and the multigrid
    /// hierarchy is laid out.
    #[verifier::rlimit(60)]
    pub fn new(width: u32, height: u32) -> (r: Apic)
        requires
            dims_fit(width as int, height as int),
            seed_rows(width as int, height as int, height as int).len() > 0 ==> width <= 32768
                && height <= 32768,
            9 * seed_rows(width as int, height as int, height as int).len() + 7 <= u32::MAX,
        ensures
            r.wf(),
            r.base_grid.blank(),
            forall|k: int| 0 <= k < r.multigrid_levels.len() ==> (#[trigger] r.multigrid_levels@[k]).blank(),
            forall|k: int| 0 <= k < r.mac_fluid_index.len() ==> #[trigger] r.mac_fluid_index@[k] == 0,
            r.width == width,
            r.height == height,
            r.cells == width * height,
            forall|x: int, y: int|
                in_grid(width as int, height as int, x, y) ==> #[trigger] cell_flag(
                    r.mac_type_obstacle@,
                    y * width + x,
                ) == on_border(width as int, height as int, x, y),
            forall|c: int|
                width * height <= c < 64 * r.mac_type_obstacle.len() ==> !#[trigger] cell_flag(
                    r.mac_type_obstacle@,
                    c,
                ),
            r.num_particles == 9 * seed_rows(width as int, height as int, height as int).len(),
            r.mac_fluid_index.len() == chunked_len(width * height),
            r.fluid_cells == 0,
            r.timestamp == 0,
            r.num_particles == 0 ==> {
                &&& r.multigrid_levels.len() == 0
                &&& r.num_chunks == 0
                &&& r.part_sort.len() == r.cells / 2
                &&& r.part_lookup.len() == r.cells / 2
            },
            r.num_particles > 0 ==> {
                &&& r.multigrid_levels.len() == level_sizes(width as int, height as int).len()
                &&& forall|k: int|
                    0 <= k < r.multigrid_levels.len() ==> (#[trigger] r.multigrid_levels@[k]).width
                        == level_sizes(width as int, height as int)[k].0
                        && r.multigrid_levels@[k].height == level_sizes(
                        width as int,
                        height as int,
                    )[k].1
                &&& exists|e: u32|
                    e <= 15 && (1u32 << e) >= width && (1u32 << e) >= height && ((1u32 << e) == 1
                        || (1u32 << e) / 2 < width || (1u32 << e) / 2 < height)
                        && r.part_lookup.len() == (1u32 << e) * (1u32 << e)
            },
            forall|i: int|
                0 <= i < r.part_sort.len() ==> #[trigger] r.part_sort@[i] == (SortableTuple { key: 0, val: 0 }),
            forall|i: int| 0 <= i < r.part_lookup.len() ==> #[trigger] r.part_lookup@[i] == (0u32, 0u32),
    {
        assert(width * height <= (width + 1) * (height + 1)) by (nonlinear_arith);
        let cells = width * height;
        let base_grid = MultiGridLevel::new(width as usize, height as usize);
        let mac_type_obstacle = border_obstacles(width, height);
        let mac_fluid_index: Vec<u32> = vec![0u32; (((cells + 7) / 8) * 8) as usize];
        let seeds = seed_cells(width, height);
        proof {
            crate::grid::lemma_seed_count(width as int, height as int, height as int);
            assert(height * width == width * height) by (nonlinear_arith);
        }
        let num_particles = (seeds.len() * 9) as u32;
        if num_particles == 0 {
            let r = Apic {
                width,
                height,
                cells,
                num_chunks: 0,
                num_particles: 0,
                mac_type_obstacle,
                mac_fluid_index,
                part_lookup: zero_ranges((cells / 2) as usize),
                part_sort: zero_tuples((cells / 2) as usize),
                fluid_cells: 0,
                base_grid,
                multigrid_levels: Vec::new(),
                timestamp: 0,
            };
            proof {
                assert(levels_chain(r.multigrid_levels@, width as int, height as int));
                reveal(idle_sort);
            }
            return r;
        }
        let num_chunks = (num_particles + 7) / 8;
        let max_side = if width > height {
            width
        } else {
            height
        };
        let max_dim = next_power_of_two(max_side);
        let ghost e = choose|e: u32| e <= 31 && max_dim == 1u32 << e;
        proof {
            lemma_small_power(e);
        }
        let lookup_size = max_dim * max_dim;
        let part_lookup = zero_ranges(lookup_size as usize);
        let part_sort = zero_tuples(num_particles as usize);
        let multigrid_levels = build_levels(width, height);
        let r = Apic {
            width,
            height,
            cells,
            num_chunks,
            num_particles,
            mac_type_obstacle,
            mac_fluid_index,
            part_lookup,
            part_sort,
            fluid_cells: 0,
            base_grid,
            multigrid_levels,
            timestamp: 0,
        };
        proof {
            reveal(lookup_sized);
            assert(e <= 15 && (1u32 << e) >= width && (1u32 << e) >= height && ((1u32 << e) == 1
                || (1u32 << e) / 2 < width || (1u32 << e) / 2 < height) && r.part_lookup.len() == (1u32
                << e) * (1u32 << e));
        }
        r
    }
}


impl Apic {
    /// Index of the horizontal-velocity face at column `i`, row `j`, clamped into the face grid.
    pub fn u_index(&self, i: i32, j: i32) -> (r: u32)
        requires
            self.wf(),
        ensures
            r == clamp(j as int, 0, self.height - 1) * (self.width + 1) + clamp(
                i as int,
                0,
                self.width as int,
            ),
            r < (self.width + 1) * self.height,
    {
        u_face_index(self.width, self.height, i, j)
    }

    /// Index of the vertical-velocity face at column `i`, row `j`, clamped into the face grid.
    pub fn v_index(&self, i: i32, j: i32) -> (r: u32)
        requires
            self.wf(),
        ensures
            r == clamp(j as int, 0, self.height as int) * self.width + clamp(
                i as int,
                0,
                self.width - 1,
            ),
            r < self.width * (self.height + 1),
    {
        v_face_index(self.width, self.height, i, j)
    }

    /// Whether cell `(i, j)` is wall: 1 for a wall cell or a cell off the grid, 0 otherwise.
    pub fn is_obstacle(&self, i: i32, j: i32) -> (r: u64)
        requires
            self.wf(),
        ensures
            r == (if !in_grid(self.width as int, self.height as int, i as int, j as int) {
                1u64
            } else if cell_flag(self.mac_type_obstacle@, j * self.width + i) {
                1u64
            } else {
                0u64
            }),
    {
        grid_flag(&self.mac_type_obstacle, self.width, self.height, i, j, 1)
    }

    /// Whether cell `(i, j)` holds fluid: 1 when it does, 0 for a dry cell or a cell off the grid.
    pub fn is_fluid(&self, i: i32, j: i32) -> (r: u64)
        requires
            self.wf(),
        ensures
            r == (if !in_grid(self.width as int, self.height as int, i as int, j as int) {
                0u64
            } else if cell_flag(self.base_grid.type_fluid@, j * self.width + i) {
                1u64
            } else {
                0u64
            }),
    {
        proof {
            self.base_grid.lemma_wf_bounds();
        }
        grid_flag(&self.base_grid.type_fluid, self.width, self.height, i, j, 0)
    }

    /// Whether the cell with row-major index `index` holds fluid: 1 when it does, 0 when not.
    pub fn is_fluid_index(&self, index: usize) -> (r: u64)
        requires
            index < 64 * self.base_grid.type_fluid.len(),
        ensures
            r == (if cell_flag(self.base_grid.type_fluid@, index as int) { 1u64 } else { 0u64 }),
    {
        self.base_grid.is_fluid_index(index)
    }

    /// Marks the cells that hold particles as fluid, leaving out wall cells, then lists the fluid
    /// cells in increasing order (padded to whole chunks of eight), counts them and splits them by
    /// checkerboard colour.
    pub fn mark_fluid_cells(&mut self, particle_cells: &Vec<(u32, u32)>)
        requires
            old(self).wf(),
            forall|k: int|
                0 <= k < particle_cells.len() ==> (#[trigger] particle_cells@[k]).0 < old(self).width
                    && particle_cells@[k].1 < old(self).height,
        ensures
            final(self).wf(),
            forall|c: int|
                0 <= c < 64 * final(self).base_grid.type_fluid.len() ==> #[trigger] cell_flag(
                    final(self).base_grid.type_fluid@,
                    c,
                ) == ((exists|k: int|
                    0 <= k < particle_cells.len() && #[trigger] (particle_cells@[k].1 * old(self).width + particle_cells@[k].0) == c) && !cell_flag(
                    old(self).mac_type_obstacle@,
                    c,
                )),
            final(self).mac_fluid_index@ == pad_to_chunks(
                flagged_cells(final(self).base_grid.type_fluid@),
            ),
            final(self).fluid_cells == flagged_cells(final(self).base_grid.type_fluid@).len(),
            final(self).base_grid.red_indices@ == red_cells(
                flagged_cells(final(self).base_grid.type_fluid@),
                old(self).width,
            ),
            final(self).base_grid.black_indices@ == black_cells(
                flagged_cells(final(self).base_grid.type_fluid@),
                old(self).width,
            ),
            final(self).width == old(self).width,
            final(self).height == old(self).height,
            final(self).cells == old(self).cells,
            final(self).num_chunks == old(self).num_chunks,
            final(self).num_particles == old(self).num_particles,
            final(self).mac_type_obstacle@ == old(self).mac_type_obstacle@,
            final(self).part_lookup@ == old(self).part_lookup@,
            final(self).part_sort@ == old(self).part_sort@,
            final(self).multigrid_levels@ == old(self).multigrid_levels@,
            final(self).timestamp == old(self).timestamp,
            final(self).base_grid.fluid_indices@ == old(self).base_grid.fluid_indices@,
            final(self).base_grid.diag_laplacian@ == old(self).base_grid.diag_laplacian@,
            final(self).base_grid.plus_x_laplacian@ == old(self).base_grid.plus_x_laplacian@,
            final(self).base_grid.plus_y_laplacian@ == old(self).base_grid.plus_y_laplacian@,
    {
        proof {
            self.base_grid.lemma_wf_bounds();
        }
        let width = self.width;
        let mut flags: Vec<u64> = vec![0u64; self.base_grid.type_fluid.len()];
        proof {
            assert forall|c: int| 0 <= c < 64 * flags.len() implies !#[trigger] cell_flag(flags@, c) by {
                assert(flags@[c / 64] == 0u64);
                let b = (c % 64) as u64;
                assert((0u64 >> b) & 1u64 == 0u64) by (bit_vector);
            }
        }
        let mut k: usize = 0;
        while k < particle_cells.len()
            invariant
                self.wf(),
                width == self.width,
                forall|j: int|
                    0 <= j < particle_cells.len() ==> (#[trigger] particle_cells@[j]).0 < self.width
                        && particle_cells@[j].1 < self.height,
                k <= particle_cells.len(),
                flags.len() == self.base_grid.type_fluid.len(),
                forall|c: int|
                    0 <= c < 64 * flags.len() ==> #[trigger] cell_flag(flags@, c) == exists|j: int|
                        0 <= j < k && #[trigger] (particle_cells@[j].1 * width + particle_cells@[j].0)
                            == c,
            decreases particle_cells.len() - k,
        {
            let (x, y) = particle_cells[k];
            proof {
                lemma_cell_index(self.width as int, self.height as int, x as int, y as int);
                self.base_grid.lemma_wf_bounds();
            }
            let grid_index = y * width + x;
            let ghost before = flags@;
            set_flag(&mut flags, grid_index as usize);
            proof {
                assert forall|c: int| 0 <= c < 64 * flags.len() implies #[trigger] cell_flag(flags@, c)
                    == exists|j: int|
                    0 <= j < k + 1 && #[trigger] (particle_cells@[j].1 * width + particle_cells@[j].0)
                        == c by {
                    if cell_flag(flags@, c) {
                        if c == grid_index as int {
                            assert(particle_cells@[k as int].1 * width + particle_cells@[k as int].0 == c);
                        } else {
                            assert(cell_flag(before, c));
                            let j = choose|j: int|
                                0 <= j < k && #[trigger] (particle_cells@[j].1 * width
                                    + particle_cells@[j].0) == c;
                            assert(0 <= j < k + 1);
                        }
                    } else {
                        if exists|j: int|
                            0 <= j < k + 1 && #[trigger] (particle_cells@[j].1 * width
                                + particle_cells@[j].0) == c {
                            let j = choose|j: int|
                                0 <= j < k + 1 && #[trigger] (particle_cells@[j].1 * width
                                    + particle_cells@[j].0) == c;
                            if j < k {
                                assert(cell_flag(before, c));
                            }
                        }
                    }
                }
            }
            k += 1;
        }
        clear_flags(&mut flags, &self.mac_type_obstacle);
        self.base_grid.type_fluid = flags;
        let list = list_flagged(&self.base_grid.type_fluid);
        let (red, black) = split_red_black(&list, width);
        self.base_grid.red_indices = red;
        self.base_grid.black_indices = black;
        self.fluid_cells = list.len() as u32;
        let ghost fl = self.base_grid.type_fluid@;
        proof {
            lemma_flagged_upto(fl, 64 * self.base_grid.type_fluid.len() as int);
        }
        let mut padded = list;
        pad_cells(&mut padded);
        self.mac_fluid_index = padded;
        proof {
            assert forall|j: int| 0 <= j < self.mac_fluid_index.len() implies #[trigger] self.mac_fluid_index@[j]
                < self.cells by {
                let fc = flagged_cells(fl);
                if j < fc.len() {
                    assert(cell_flag(fl, fc[j] as int));
                    let c = fc[j] as int;
                    let i = choose|i: int|
                        0 <= i < particle_cells.len() && #[trigger] (particle_cells@[i].1 * width
                            + particle_cells@[i].0) == c;
                    lemma_cell_index(
                        self.width as int,
                        self.height as int,
                        particle_cells@[i].0 as int,
                        particle_cells@[i].1 as int,
                    );
                } else {
                    let c = fc[fc.len() - 1] as int;
                    assert(cell_flag(fl, c));
                    let i = choose|i: int|
                        0 <= i < particle_cells.len() && #[trigger] (particle_cells@[i].1 * width
                            + particle_cells@[i].0) == c;
                    lemma_cell_index(
                        self.width as int,
                        self.height as int,
                        particle_cells@[i].0 as int,
                        particle_cells@[i].1 as int,
                    );
                }
            }
        }
    }
}


/// Each level of `new` has been rebuilt from the fluid cells of the level above it, the first from
/// the fluid cells of the base grid, and has kept its sizes.
pub open spec fn hierarchy_rebuilt(
    new: Seq<MultiGridLevel>,
    old: Seq<MultiGridLevel>,
    base_cells: Seq<u32>,
    base_width: int,
) -> bool {
    &&& new.len() == old.len()
    &&& forall|k: int|
        0 <= k < new.len() ==> {
            &&& (#[trigger] new[k]).width == old[k].width
            &&& new[k].height == old[k].height
            &&& new[k].cells == old[k].cells
            &&& new[k].rebuilt_from(
                if k == 0 { base_cells } else { new[k - 1].fluid_indices@ },
                if k == 0 { base_width } else { new[k - 1].width as int },
            )
        }
}

impl Apic {
    /// Rebuilds every coarser multigrid level from the fluid cells of the level above it, the first
    /// from the fluid cells of the base grid.
    #[verifier::rlimit(40)]
    pub fn update_multilevel_grid(&mut self)
        requires
            old(self).wf(),
        ensures
            final(self).wf(),
            hierarchy_rebuilt(
                final(self).multigrid_levels@,
                old(self).multigrid_levels@,
                old(self).mac_fluid_index@,
                old(self).width as int,
            ),
            final(self).width == old(self).width,
            final(self).height == old(self).height,
            final(self).cells == old(self).cells,
            final(self).num_chunks == old(self).num_chunks,
            final(self).num_particles == old(self).num_particles,
            final(self).mac_type_obstacle@ == old(self).mac_type_obstacle@,
            final(self).mac_fluid_index@ == old(self).mac_fluid_index@,
            final(self).part_lookup@ == old(self).part_lookup@,
            final(self).part_sort@ == old(self).part_sort@,
            final(self).fluid_cells == old(self).fluid_cells,
            final(self).base_grid == old(self).base_grid,
            final(self).timestamp == old(self).timestamp,
    {
        let ghost base = self.mac_fluid_index@;
        let ghost w0 = self.width as int;
        let ghost h0 = self.height as int;
        let mut fluid: Vec<u32> = copy_cells(&self.mac_fluid_index);
        let mut width: u32 = self.width;
        let mut levels: Vec<MultiGridLevel> = Vec::new();
        std::mem::swap(&mut levels, &mut self.multigrid_levels);
        let ghost old_levels = levels@;
        proof {
            if old_levels.len() > 0 {
                let lv = old_levels[0];
                assert(lv.wf());
                assert(4 * lv.cells == self.cells) by (nonlinear_arith)
                    requires
                        lv.cells == lv.width * lv.height,
                        self.cells == self.width * self.height,
                        2 * lv.width == self.width,
                        2 * lv.height == self.height,
                ;
            }
        }
        let mut grid_index: usize = 0;
        while grid_index < levels.len()
            invariant
                old_levels.len() == levels.len(),
                levels_chain(old_levels, w0, h0),
                levels_chain(levels@, w0, h0),
                grid_index <= levels.len(),
                forall|k: int| grid_index <= k < levels.len() ==> #[trigger] levels@[k] == old_levels[k],
                hierarchy_rebuilt(levels@.take(grid_index as int), old_levels.take(grid_index as int), base, w0),
                fluid@ == (if grid_index == 0 { base } else { levels@[grid_index - 1].fluid_indices@ }),
                width as int == (if grid_index == 0 { w0 } else { levels@[grid_index - 1].width as int }),
                grid_index < levels.len() ==> forall|m: int|
                    0 <= m < fluid.len() ==> #[trigger] fluid@[m] < 4 * levels@[grid_index as int].cells,
            decreases levels.len() - grid_index,
        {
            let ghost before = levels@;
            proof {
                assert(before[grid_index as int].wf());
                if grid_index > 0 {
                    assert(before[grid_index - 1].wf());
                }
            }
            levels[grid_index].coarsen_from(&fluid, width);
            proof {
                lemma_rebuild_step(before, levels@, old_levels, base, w0, h0, grid_index as int, fluid@, width as int);
            }
            fluid = copy_cells(&levels[grid_index].fluid_indices);
            width = levels[grid_index].width as u32;
            grid_index += 1;
        }
        std::mem::swap(&mut levels, &mut self.multigrid_levels);
        proof {
            assert(self.multigrid_levels@.take(self.multigrid_levels.len() as int) =~= self.multigrid_levels@);
            assert(old_levels.take(old_levels.len() as int) =~= old_levels);
        }
    }
}

/// One step of the rebuild of the hierarchy keeps the facts that the loop carries.
proof fn lemma_rebuild_step(
    before: Seq<MultiGridLevel>,
    after: Seq<MultiGridLevel>,
    old_levels: Seq<MultiGridLevel>,
    base: Seq<u32>,
    w0: int,
    h0: int,
    gi: int,
    fine: Seq<u32>,
    fine_width: int,
)
    requires
        0 <= gi < before.len(),
        old_levels.len() == before.len(),
        levels_chain(old_levels, w0, h0),
        levels_chain(before, w0, h0),
        forall|k: int| gi <= k < before.len() ==> #[trigger] before[k] == old_levels[k],
        hierarchy_rebuilt(before.take(gi), old_levels.take(gi), base, w0),
        fine == (if gi == 0 { base } else { before[gi - 1].fluid_indices@ }),
        fine_width == (if gi == 0 { w0 } else { before[gi - 1].width as int }),
        forall|m: int| 0 <= m < fine.len() ==> #[trigger] fine[m] < 4 * before[gi].cells,
        after.len() == before.len(),
        forall|k: int| 0 <= k < after.len() && k != gi ==> #[trigger] after[k] == before[k],
        after[gi].wf(),
        after[gi].width == before[gi].width,
        after[gi].height == before[gi].height,
        after[gi].cells == before[gi].cells,
        after[gi].rebuilt_from(fine, fine_width),
    ensures
        levels_chain(after, w0, h0),
        forall|k: int| gi + 1 <= k < after.len() ==> #[trigger] after[k] == old_levels[k],
        hierarchy_rebuilt(after.take(gi + 1), old_levels.take(gi + 1), base, w0),
        gi + 1 < after.len() ==> forall|m: int|
            0 <= m < after[gi].fluid_indices@.len() ==> #[trigger] after[gi].fluid_indices@[m] < 4
                * after[gi + 1].cells,
{
    assert forall|k: int| 0 <= k < after.len() implies {
        &&& #[trigger] after[k].wf()
        &&& 2 * after[k].width == (if k == 0 { w0 } else { after[k - 1].width as int })
        &&& 2 * after[k].height == (if k == 0 { h0 } else { after[k - 1].height as int })
    } by {
        assert(before[k].wf());
        if k > 0 {
            assert(before[k - 1].wf());
        }
    }
    let at = after.take(gi + 1);
    let ot = old_levels.take(gi + 1);
    assert forall|k: int| 0 <= k < at.len() implies {
        &&& (#[trigger] at[k]).width == ot[k].width
        &&& at[k].height == ot[k].height
        &&& at[k].cells == ot[k].cells
        &&& at[k].rebuilt_from(
            if k == 0 { base } else { at[k - 1].fluid_indices@ },
            if k == 0 { w0 } else { at[k - 1].width as int },
        )
    } by {
        if k < gi {
            assert(at[k] == before.take(gi)[k]);
            assert(ot[k] == old_levels.take(gi)[k]);
            if k > 0 {
                assert(at[k - 1] == before.take(gi)[k - 1]);
            }
        } else {
            if k > 0 {
                assert(at[k - 1] == before[k - 1]);
            }
        }
    }
    if gi + 1 < after.len() {
        let nxt = after[gi + 1];
        let cur = after[gi];
        assert(nxt.wf());
        assert(4 * nxt.cells == cur.cells) by (nonlinear_arith)
            requires
                nxt.cells == nxt.width * nxt.height,
                cur.cells == cur.width * cur.height,
                2 * nxt.width == cur.width,
                2 * nxt.height == cur.height,
        ;
        cur.lemma_wf_bounds();
        crate::bitset::lemma_flagged_upto(cur.type_fluid@, 64 * cur.type_fluid.len() as int);
        assert forall|m: int| 0 <= m < cur.fluid_indices@.len() implies #[trigger] cur.fluid_indices@[m] < 4
            * nxt.cells by {
            let c = cur.fluid_indices@[m] as int;
            assert(cell_flag(cur.type_fluid@, c));
            assert(crate::multigrid::covers(fine, fine_width, cur.width as int, c));
            let j = choose|j: int|
                0 <= j < fine.len() && #[trigger] crate::grid::coarse_of(fine[j] as int, fine_width, cur.width as int) == c;
            crate::multigrid::lemma_coarse_in_range(fine[j] as int, cur.width as int, cur.height as int);
        }
    }
}

/// The tuple of particle `p`: the Z-order index of the cell that the grid coordinates place it in,
/// and the particle's own index.
pub open spec fn particle_tuple(grid_x: Seq<[u32; 8]>, grid_y: Seq<[u32; 8]>, p: int) -> SortableTuple {
    SortableTuple {
        key: interleave(grid_x[p / 8][p % 8], grid_y[p / 8][p % 8]),
        val: p as u32,
    }
}

/// The tuples of the first `n` particles, in particle order.
pub open spec fn particle_tuples(grid_x: Seq<[u32; 8]>, grid_y: Seq<[u32; 8]>, n: int) -> Seq<
    SortableTuple,
> {
    Seq::new(n as nat, |p: int| particle_tuple(grid_x, grid_y, p))
}

/// A cell of a square of side `2^e` has a Z-order index below `4^e`.
proof fn lemma_key_in_lookup(x: u32, y: u32, e: u32)
    requires
        e <= 15,
        x < (1u32 << e),
        y < (1u32 << e),
    ensures
        interleave(x, y) < (1u32 << e) * (1u32 << e),
{
    let ee = e as u64;
    assert((1u32 << e) as u64 == 1u64 << ee) by (bit_vector)
        requires
            e <= 15,
            ee == e as u64,
    ;
    crate::morton::lemma_morton_bound(x, y, e);
    assert((1u64 << (2 * ee) as u64) == ((1u32 << e) as u64) * ((1u32 << e) as u64)) by (bit_vector)
        requires
            e <= 15,
            ee == e as u64,
    ;
}

impl Apic {
    /// Keys every particle by the Z-order index of its cell, sorts the keys (ties by particle
    /// index) and rebuilds the lookup from a cell's key to the range of sorted positions of the
    /// particles in that cell. `grid_x` and `grid_y` hold the cell coordinates of the particles,
    /// eight per chunk.
    pub fn update_spatial_lookup(&mut self, grid_x: &Vec<[u32; 8]>, grid_y: &Vec<[u32; 8]>)
        requires
            old(self).wf(),
            old(self).num_chunks <= grid_x.len(),
            old(self).num_chunks <= grid_y.len(),
            forall|p: int|
                0 <= p < old(self).num_particles ==> #[trigger] grid_x@[p / 8][p % 8] < old(self).width && grid_y@[p / 8][p % 8] < old(self).height,
        ensures
            final(self).wf(),
            final(self).part_sort.len() == old(self).part_sort.len(),
            final(self).part_sort@.take(old(self).num_particles as int).to_multiset()
                == particle_tuples(grid_x@, grid_y@, old(self).num_particles as int).to_multiset(),
            forall|i: int, j: int|
                0 <= i <= j < old(self).num_particles ==> tuple_le(
                    #[trigger] final(self).part_sort@[i],
                    #[trigger] final(self).part_sort@[j],
                ),
            forall|i: int|
                old(self).num_particles <= i < final(self).part_sort.len() ==> #[trigger] final(self).part_sort@[i] == old(self).part_sort@[i],
            final(self).part_lookup.len() == old(self).part_lookup.len(),
            lookup_built(final(self).part_sort@, final(self).part_lookup@, old(self).num_particles),
            final(self).width == old(self).width,
            final(self).height == old(self).height,
            final(self).cells == old(self).cells,
            final(self).num_chunks == old(self).num_chunks,
            final(self).num_particles == old(self).num_particles,
            final(self).mac_type_obstacle@ == old(self).mac_type_obstacle@,
            final(self).mac_fluid_index@ == old(self).mac_fluid_index@,
            final(self).fluid_cells == old(self).fluid_cells,
            final(self).base_grid == old(self).base_grid,
            final(self).multigrid_levels@ == old(self).multigrid_levels@,
            final(self).timestamp == old(self).timestamp,
    {
        let n = self.num_particles;
        let num_chunks = self.num_chunks as usize;
        let ghost tuples = particle_tuples(grid_x@, grid_y@, n as int);
        let ghost original = self.part_sort@;
        let mut chunk_index: usize = 0;
        while chunk_index < num_chunks
            invariant
                self.wf(),
                n == self.num_particles,
                num_chunks == self.num_chunks,
                num_chunks <= grid_x.len(),
                num_chunks <= grid_y.len(),
                tuples == particle_tuples(grid_x@, grid_y@, n as int),
                self.width == old(self).width,
                self.height == old(self).height,
                self.cells == old(self).cells,
                self.num_chunks == old(self).num_chunks,
                self.num_particles == old(self).num_particles,
                self.mac_type_obstacle@ == old(self).mac_type_obstacle@,
                self.mac_fluid_index@ == old(self).mac_fluid_index@,
                self.fluid_cells == old(self).fluid_cells,
                self.base_grid == old(self).base_grid,
                self.multigrid_levels@ == old(self).multigrid_levels@,
                self.timestamp == old(self).timestamp,
                self.part_lookup@ == old(self).part_lookup@,
                original == old(self).part_sort@,
                self.part_sort.len() == original.len(),
                chunk_index <= num_chunks,
                forall|p: int|
                    0 <= p < n && p < 8 * chunk_index ==> #[trigger] self.part_sort@[p] == tuples[p],
                forall|p: int|
                    (p >= n || p >= 8 * chunk_index) && 0 <= p < self.part_sort.len()
                        ==> #[trigger] self.part_sort@[p] == original[p],
            decreases num_chunks - chunk_index,
        {
            let grid_indexes = morton_code(grid_x[chunk_index], grid_y[chunk_index]);
            let active_lanes = if chunk_index == num_chunks - 1 && n % 8 != 0 {
                n % 8
            } else {
                8
            };
            proof {
                assert(8 * chunk_index + active_lanes <= n);
            }
            let mut lane: usize = 0;
            while lane < active_lanes as usize
                invariant
                    self.wf(),
                    n == self.num_particles,
                    num_chunks == self.num_chunks,
                    chunk_index < num_chunks,
                    num_chunks <= grid_x.len(),
                    num_chunks <= grid_y.len(),
                    8 * chunk_index + active_lanes <= n,
                    active_lanes <= 8,
                    active_lanes == 8 || chunk_index == num_chunks - 1,
                    forall|l: int|
                        0 <= l < 8 ==> #[trigger] grid_indexes[l] == interleave(
                            grid_x@[chunk_index as int][l],
                            grid_y@[chunk_index as int][l],
                        ),
                    tuples == particle_tuples(grid_x@, grid_y@, n as int),
                    self.width == old(self).width,
                    self.height == old(self).height,
                    self.cells == old(self).cells,
                    self.num_chunks == old(self).num_chunks,
                    self.num_particles == old(self).num_particles,
                    self.mac_type_obstacle@ == old(self).mac_type_obstacle@,
                    self.mac_fluid_index@ == old(self).mac_fluid_index@,
                    self.fluid_cells == old(self).fluid_cells,
                    self.base_grid == old(self).base_grid,
                    self.multigrid_levels@ == old(self).multigrid_levels@,
                    self.timestamp == old(self).timestamp,
                    self.part_lookup@ == old(self).part_lookup@,
                    original == old(self).part_sort@,
                    self.part_sort.len() == original.len(),
                    lane <= active_lanes,
                    forall|p: int|
                        0 <= p < n && p < 8 * chunk_index + lane ==> #[trigger] self.part_sort@[p]
                            == tuples[p],
                    forall|p: int|
                        (p >= n || p >= 8 * chunk_index + lane) && 0 <= p < self.part_sort.len()
                            ==> #[trigger] self.part_sort@[p] == original[p],
                decreases active_lanes - lane,
            {
                let particle_index = (chunk_index * 8) + lane;
                proof {
                    let p = particle_index as int;
                    assert(p / 8 == chunk_index as int);
                    assert(p % 8 == lane as int);
                }
                let entry = SortableTuple::new(grid_indexes[lane], particle_index as u32);
                self.part_sort.set(particle_index, entry);
                lane += 1;
            }
            chunk_index += 1;
        }
        proof {
            assert(self.part_sort@.take(n as int) =~= tuples);
        }
        sort_tuples(&mut self.part_sort, n as usize);
        proof {
            broadcast use vstd::seq_lib::group_to_multiset_ensures;

            let sorted = self.part_sort@;
            reveal(lookup_sized);
            reveal(idle_sort);
            if n > 0 {
                let e = choose|e: u32|
                    e <= 15 && (1u32 << e) >= self.width && (1u32 << e) >= self.height
                        && self.part_lookup.len() == (1u32 << e) * (1u32 << e);
                assert forall|i: int| 0 <= i < sorted.len() implies #[trigger] sorted[i].key
                    < self.part_lookup.len() by {
                    assert(sorted.take(n as int)[i] == sorted[i]);
                    assert(sorted.take(n as int).to_multiset().contains(sorted[i]));
                    assert(tuples.to_multiset().contains(sorted[i]));
                    let p = choose|p: int| 0 <= p < tuples.len() && tuples[p] == sorted[i];
                    assert(tuples[p] == particle_tuple(grid_x@, grid_y@, p));
                    lemma_key_in_lookup(grid_x@[p / 8][p % 8], grid_y@[p / 8][p % 8], e);
                }
                assert forall|i: int, j: int| 0 <= i <= j < sorted.len() implies #[trigger] sorted[i].key
                    <= #[trigger] sorted[j].key by {
                    assert(tuple_le(sorted[i], sorted[j]));
                }
            } else {
                assert forall|i: int| 0 <= i < sorted.len() implies #[trigger] sorted[i].key
                    < self.part_lookup.len() by {
                    assert(sorted[i] == original[i]);
                }
                assert forall|i: int, j: int| 0 <= i <= j < sorted.len() implies #[trigger] sorted[i].key
                    <= #[trigger] sorted[j].key by {
                    assert(sorted[i] == original[i]);
                    assert(sorted[j] == original[j]);
                }
            }
        }
        build_lookup(&self.part_sort, &mut self.part_lookup, n);
        proof {
            if n == 0 {
                assert(self.part_sort@ =~= original);
            }
        }
    }
}

} // verus!

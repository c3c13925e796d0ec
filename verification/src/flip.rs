use vstd::prelude::*;
use crate::bitset::{cell_flag, clear_flags, flagged_cells, lemma_flagged_upto, list_flagged, read_flag, set_flag};
use crate::grid::{
    border_obstacles, clamp, dims_fit, grid_flag, in_grid, lemma_cell_index, on_border,
    seed_cells, seed_rows, u_face_index, v_face_index, words_for,
};

verus! {

/// 1 when cell `(i, j)` is wall or lies off the grid, 0 otherwise.
pub open spec fn obstacle_at(words: Seq<u64>, width: int, height: int, i: int, j: int) -> int {
    if !in_grid(width, height, i, j) {
        1
    } else if cell_flag(words, j * width + i) {
        1
    } else {
        0
    }
}

/// 1 when cell `(i, j)` lies on the grid and holds fluid, 0 otherwise.
pub open spec fn fluid_at(words: Seq<u64>, width: int, height: int, i: int, j: int) -> int {
    if !in_grid(width, height, i, j) {
        0
    } else if cell_flag(words, j * width + i) {
        1
    } else {
        0
    }
}

/// The grid state of the FLIP simulation that is not made of floating-point quantities: the grid
/// sizes, which cells are walls and which hold fluid, and the particle counts.
pub struct Flip {
    pub width: u32,
    pub height: u32,
    pub cells: u32,
    pub num_chunks: u32,
    pub num_particles: u32,
    pub mac_type_obstacle: Vec<u64>,
    pub mac_type_fluid: Vec<u64>,
}

impl Flip {
    /// The sizes and tables of the state agree with each other, and only cells of the grid hold
    /// fluid.
    pub open spec fn wf(&self) -> bool {
        &&& dims_fit(self.width as int, self.height as int)
        &&& self.cells == self.width * self.height
        &&& self.mac_type_obstacle.len() == words_for(self.cells as int)
        &&& self.mac_type_fluid.len() == words_for(self.cells as int)
        &&& forall|c: int|
            self.cells <= c < 64 * self.mac_type_fluid.len() ==> !#[trigger] cell_flag(
                self.mac_type_fluid@,
                c,
            )
        &&& self.num_chunks * 8 == (if self.num_particles % 8 == 0 {
            self.num_particles as int
        } else {
            self.num_particles + 8 - self.num_particles % 8
        })
    }

    /// The grid state of a fresh simulation on a `width` by `height` grid: the outer ring of cells
    /// is wall, no cell holds fluid yet, and nine particles are seeded in each seed cell.
    pub fn new(width: u32, height: u32) -> (r: Flip)
        requires
            dims_fit(width as int, height as int),
            9 * seed_rows(width as int, height as int, height as int).len() + 7 <= u32::MAX,
        ensures
            r.wf(),
            r.width == width,
            r.height == height,
            r.cells == width * height,
            forall|x: int, y: int|
                in_grid(width as int, height as int, x, y) ==> #[trigger] cell_flag(
                    r.mac_type_obstacle@,
                    y * width + x,
                ) == on_border(width as int, height as int, x, y),
            forall|c: int|
                width * height <= c < 64 * r.mac_type_obstacle.len() ==> !#[trigger] cell_flag(
                    r.mac_type_obstacle@,
                    c,
                ),
            forall|c: int| 0 <= c < 64 * r.mac_type_fluid.len() ==> !#[trigger] cell_flag(r.mac_type_fluid@, c),
            r.num_particles == 9 * seed_rows(width as int, height as int, height as int).len(),
    {
        assert(width * height <= (width + 1) * (height + 1)) by (nonlinear_arith);
        let cells = width * height;
        let mac_type_obstacle = border_obstacles(width, height);
        let mac_type_fluid: Vec<u64> = vec![0u64; ((cells + 63) / 64) as usize];
        proof {
            assert forall|c: int| 0 <= c < 64 * mac_type_fluid.len() implies !#[trigger] cell_flag(
                mac_type_fluid@,
                c,
            ) by {
                assert(mac_type_fluid@[c / 64] == 0u64);
                let b = (c % 64) as u64;
                assert((0u64 >> b) & 1u64 == 0u64) by (bit_vector);
            }
        }
        let seeds = seed_cells(width, height);
        proof {
            crate::grid::lemma_seed_count(width as int, height as int, height as int);
            assert(height * width == width * height) by (nonlinear_arith);
        }
        let num_particles = (seeds.len() * 9) as u32;
        let num_chunks = if num_particles == 0 {
            0
        } else {
            (num_particles + 7) / 8
        };
        Flip { width, height, cells, num_chunks, num_particles, mac_type_obstacle, mac_type_fluid }
    }

    /// Index of the horizontal-velocity face at column `i`, row `j`, clamped into the face grid.
    pub fn u_index(&self, i: i32, j: i32) -> (r: u32)
        requires
            self.wf(),
        ensures
            r == clamp(j as int, 0, self.height - 1) * (self.width + 1) + clamp(
                i as int,
                0,
                self.width as int,
            ),
            r < (self.width + 1) * self.height,
    {
        u_face_index(self.width, self.height, i, j)
    }

    /// Index of the vertical-velocity face at column `i`, row `j`, clamped into the face grid.
    pub fn v_index(&self, i: i32, j: i32) -> (r: u32)
        requires
            self.wf(),
        ensures
            r == clamp(j as int, 0, self.height as int) * self.width + clamp(
                i as int,
                0,
                self.width - 1,
            ),
            r < self.width * (self.height + 1),
    {
        v_face_index(self.width, self.height, i, j)
    }

    /// Whether cell `(i, j)` is wall: 1 for a wall cell or a cell off the grid, 0 otherwise.
    pub fn is_obstacle(&self, i: i32, j: i32) -> (r: u64)
        requires
            self.wf(),
        ensures
            r == obstacle_at(self.mac_type_obstacle@, self.width as int, self.height as int, i as int, j as int),
    {
        grid_flag(&self.mac_type_obstacle, self.width, self.height, i, j, 1)
    }

    /// Whether cell `(i, j)` holds fluid: 1 when it does, 0 for a dry cell or a cell off the grid.
    pub fn is_fluid(&self, i: i32, j: i32) -> (r: u64)
        requires
            self.wf(),
        ensures
            r == fluid_at(self.mac_type_fluid@, self.width as int, self.height as int, i as int, j as int),
    {
        grid_flag(&self.mac_type_fluid, self.width, self.height, i, j, 0)
    }

    /// Whether the cell with row-major index `index` holds fluid: 1 when it does, 0 when not.
    pub fn is_fluid_index(&self, index: usize) -> (r: u64)
        requires
            index < 64 * self.mac_type_fluid.len(),
        ensures
            r == (if cell_flag(self.mac_type_fluid@, index as int) { 1u64 } else { 0u64 }),
    {
        read_flag(&self.mac_type_fluid, index)
    }

    /// Marks the cells that hold particles as fluid, leaving out wall cells.
    pub fn mark_fluid_cells(&mut self, particle_cells: &Vec<(u32, u32)>)
        requires
            old(self).wf(),
            forall|k: int|
                0 <= k < particle_cells.len() ==> (#[trigger] particle_cells@[k]).0 < old(self).width
                    && particle_cells@[k].1 < old(self).height,
        ensures
            final(self).wf(),
            forall|c: int|
                0 <= c < 64 * final(self).mac_type_fluid.len() ==> #[trigger] cell_flag(
                    final(self).mac_type_fluid@,
                    c,
                ) == ((exists|k: int|
                    0 <= k < particle_cells.len() && #[trigger] (particle_cells@[k].1 * old(self).width
                        + particle_cells@[k].0) == c) && !cell_flag(old(self).mac_type_obstacle@, c)),
            final(self).width == old(self).width,
            final(self).height == old(self).height,
            final(self).cells == old(self).cells,
            final(self).num_chunks == old(self).num_chunks,
            final(self).num_particles == old(self).num_particles,
            final(self).mac_type_obstacle@ == old(self).mac_type_obstacle@,
    {
        let width = self.width;
        let mut flags: Vec<u64> = vec![0u64; self.mac_type_fluid.len()];
        proof {
            assert forall|c: int| 0 <= c < 64 * flags.len() implies !#[trigger] cell_flag(flags@, c) by {
                assert(flags@[c / 64] == 0u64);
                let b = (c % 64) as u64;
                assert((0u64 >> b) & 1u64 == 0u64) by (bit_vector);
            }
            assert(self.cells <= 64 * flags.len());
        }
        let mut k: usize = 0;
        while k < particle_cells.len()
            invariant
                self.wf(),
                width == self.width,
                forall|j: int|
                    0 <= j < particle_cells.len() ==> (#[trigger] particle_cells@[j]).0 < self.width
                        && particle_cells@[j].1 < self.height,
                k <= particle_cells.len(),
                flags.len() == self.mac_type_fluid.len(),
                self.cells <= 64 * flags.len(),
                forall|c: int|
                    0 <= c < 64 * flags.len() ==> #[trigger] cell_flag(flags@, c) == exists|j: int|
                        0 <= j < k && #[trigger] (particle_cells@[j].1 * width + particle_cells@[j].0)
                            == c,
            decreases particle_cells.len() - k,
        {
            let (x, y) = particle_cells[k];
            proof {
                lemma_cell_index(self.width as int, self.height as int, x as int, y as int);
            }
            let grid_index = y * width + x;
            let ghost before = flags@;
            set_flag(&mut flags, grid_index as usize);
            proof {
                assert forall|c: int| 0 <= c < 64 * flags.len() implies #[trigger] cell_flag(flags@, c)
                    == exists|j: int|
                    0 <= j < k + 1 && #[trigger] (particle_cells@[j].1 * width + particle_cells@[j].0)
                        == c by {
                    if cell_flag(flags@, c) {
                        if c == grid_index as int {
                            assert(particle_cells@[k as int].1 * width + particle_cells@[k as int].0 == c);
                        } else {
                            assert(cell_flag(before, c));
                            let j = choose|j: int|
                                0 <= j < k && #[trigger] (particle_cells@[j].1 * width
                                    + particle_cells@[j].0) == c;
                            assert(0 <= j < k + 1);
                        }
                    } else {
                        if exists|j: int|
                            0 <= j < k + 1 && #[trigger] (particle_cells@[j].1 * width
                                + particle_cells@[j].0) == c {
                            let j = choose|j: int|
                                0 <= j < k + 1 && #[trigger] (particle_cells@[j].1 * width
                                    + particle_cells@[j].0) == c;
                            if j < k {
                                assert(cell_flag(before, c));
                            }
                        }
                    }
                }
            }
            k += 1;
        }
        clear_flags(&mut flags, &self.mac_type_obstacle);
        self.mac_type_fluid = flags;
        proof {
            assert forall|c: int|
                self.cells <= c < 64 * self.mac_type_fluid.len() implies !#[trigger] cell_flag(
                self.mac_type_fluid@,
                c,
            ) by {
                if cell_flag(self.mac_type_fluid@, c) {
                    let j = choose|j: int|
                        0 <= j < particle_cells.len() && #[trigger] (particle_cells@[j].1 * width
                            + particle_cells@[j].0) == c;
                    lemma_cell_index(
                        self.width as int,
                        self.height as int,
                        particle_cells@[j].0 as int,
                        particle_cells@[j].1 as int,
                    );
                }
            }
        }
    }
}


/// The diagonal of the pressure matrix at cell `(x, y)`: the number of its four neighbours that are
/// not wall.
pub open spec fn open_sides(obstacles: Seq<u64>, width: int, height: int, x: int, y: int) -> int {
    (1 - obstacle_at(obstacles, width, height, x - 1, y)) + (1 - obstacle_at(
        obstacles,
        width,
        height,
        x + 1,
        y,
    )) + (1 - obstacle_at(obstacles, width, height, x, y - 1)) + (1 - obstacle_at(
        obstacles,
        width,
        height,
        x,
        y + 1,
    ))
}

/// The diagonal of the pressure matrix at a cell of the grid counts the sides whose cell across is
/// not wall: the side towards the cell one column left, one column right, one row down or one row
/// up is open exactly when that cell lies on the grid and is not flagged as wall. The cell itself
/// is never read, so a cell next to a wall has at most three open sides.
pub proof fn lemma_open_sides_counts_neighbours(obstacles: Seq<u64>, width: int, height: int, x: int, y: int)
    requires
        width >= 1,
        height >= 1,
        0 <= x < width,
        0 <= y < height,
    ensures
        open_sides(obstacles, width, height, x, y) == (if x >= 1 && !cell_flag(
            obstacles,
            y * width + x - 1,
        ) {
            1int
        } else {
            0int
        }) + (if x + 1 < width && !cell_flag(obstacles, y * width + x + 1) {
            1int
        } else {
            0int
        }) + (if y >= 1 && !cell_flag(obstacles, (y - 1) * width + x) {
            1int
        } else {
            0int
        }) + (if y + 1 < height && !cell_flag(obstacles, (y + 1) * width + x) {
            1int
        } else {
            0int
        }),
        0 <= open_sides(obstacles, width, height, x, y) <= 4,
        x + 1 == width ==> open_sides(obstacles, width, height, x, y) <= 3,
        x + 1 < width && cell_flag(obstacles, y * width + x + 1) ==> open_sides(
            obstacles,
            width,
            height,
            x,
            y,
        ) <= 3,
{
    assert(y * width + x - 1 == y * width + (x - 1));
    assert(y * width + x + 1 == y * width + (x + 1));
}

impl Flip {
    /// The integer coefficients of the pressure matrix over the fluid cells: the diagonal counts
    /// the sides of a cell that are not wall; the coupling to the right and upper neighbour is -1
    /// when that neighbour holds fluid. Every other entry is 0.
    pub fn laplacian_stencil(&self) -> (r: (Vec<i8>, Vec<i8>, Vec<i8>))
        requires
            self.wf(),
        ensures
            r.0.len() == self.cells,
            r.1.len() == self.cells,
            r.2.len() == self.cells,
            forall|c: int|
                0 <= c < self.cells ==> #[trigger] r.0@[c] == (if cell_flag(self.mac_type_fluid@, c) {
                    open_sides(
                        self.mac_type_obstacle@,
                        self.width as int,
                        self.height as int,
                        c % self.width as int,
                        c / self.width as int,
                    )
                } else {
                    0
                }),
            forall|c: int|
                0 <= c < self.cells ==> #[trigger] r.1@[c] == (if cell_flag(self.mac_type_fluid@, c) {
                    -fluid_at(
                        self.mac_type_fluid@,
                        self.width as int,
                        self.height as int,
                        c % self.width as int + 1,
                        c / self.width as int,
                    )
                } else {
                    0
                }),
            forall|c: int|
                0 <= c < self.cells ==> #[trigger] r.2@[c] == (if cell_flag(self.mac_type_fluid@, c) {
                    -fluid_at(
                        self.mac_type_fluid@,
                        self.width as int,
                        self.height as int,
                        c % self.width as int,
                        c / self.width as int + 1,
                    )
                } else {
                    0
                }),
    {
        let ghost w = self.width as int;
        let ghost h = self.height as int;
        let ghost fl = self.mac_type_fluid@;
        let ghost ob = self.mac_type_obstacle@;
        assert(self.cells <= (self.width + 1) * (self.height + 1)) by (nonlinear_arith)
            requires
                self.cells == self.width * self.height,
        ;
        let cells = self.cells as usize;
        let mut diag_laplacian: Vec<i8> = vec![0i8; cells];
        let mut plus_x_laplacian: Vec<i8> = vec![0i8; cells];
        let mut plus_y_laplacian: Vec<i8> = vec![0i8; cells];
        let fluid_cells = list_flagged(&self.mac_type_fluid);
        proof {
            lemma_flagged_upto(fl, 64 * self.mac_type_fluid.len() as int);
        }
        let width = self.width as usize;
        let mut k: usize = 0;
        while k < fluid_cells.len()
            invariant
                self.wf(),
                w == self.width as int,
                h == self.height as int,
                fl == self.mac_type_fluid@,
                ob == self.mac_type_obstacle@,
                width == self.width,
                cells == self.cells,
                fluid_cells@ == flagged_cells(fl),
                forall|m: int|
                    0 <= m < fluid_cells.len() ==> cell_flag(fl, #[trigger] fluid_cells@[m] as int)
                        && fluid_cells@[m] < 64 * self.mac_type_fluid.len(),
                k <= fluid_cells.len(),
                diag_laplacian.len() == cells,
                plus_x_laplacian.len() == cells,
                plus_y_laplacian.len() == cells,
                forall|c: int|
                    0 <= c < cells ==> #[trigger] diag_laplacian@[c] == (if fluid_cells@.take(
                        k as int,
                    ).contains(c as u32) {
                        open_sides(ob, w, h, c % w, c / w)
                    } else {
                        0
                    }),
                forall|c: int|
                    0 <= c < cells ==> #[trigger] plus_x_laplacian@[c] == (if fluid_cells@.take(
                        k as int,
                    ).contains(c as u32) {
                        -fluid_at(fl, w, h, c % w + 1, c / w)
                    } else {
                        0
                    }),
                forall|c: int|
                    0 <= c < cells ==> #[trigger] plus_y_laplacian@[c] == (if fluid_cells@.take(
                        k as int,
                    ).contains(c as u32) {
                        -fluid_at(fl, w, h, c % w, c / w + 1)
                    } else {
                        0
                    }),
            decreases fluid_cells.len() - k,
        {
            let fluid_index = fluid_cells[k] as usize;
            proof {
                assert(cell_flag(fl, fluid_index as int));
                assert(fluid_index < cells);
                vstd::arithmetic::div_mod::lemma_fundamental_div_mod(fluid_index as int, w);
                let gx = fluid_index as int % w;
                let gy = fluid_index as int / w;
                assert(fluid_index as int == gy * w + gx) by (nonlinear_arith)
                    requires
                        fluid_index as int == w * (fluid_index as int / w) + fluid_index as int % w,
                        gx == fluid_index as int % w,
                        gy == fluid_index as int / w,
                ;
                assert(gy < h) by (nonlinear_arith)
                    requires
                        fluid_index as int == gy * w + gx,
                        fluid_index < w * h,
                        0 <= gx,
                        w >= 1,
                ;
                assert(w <= (w + 1) * (h + 1)) by (nonlinear_arith)
                    requires
                        w >= 1,
                        h >= 1,
                ;
                assert(h <= (w + 1) * (h + 1)) by (nonlinear_arith)
                    requires
                        w >= 1,
                        h >= 1,
                ;
            }
            let grid_x = fluid_index % width;
            let grid_y = fluid_index / width;
            let non_obstacle_left = 1 - self.is_obstacle(grid_x as i32 - 1, grid_y as i32);
            let non_obstacle_right = 1 - self.is_obstacle(grid_x as i32 + 1, grid_y as i32);
            let non_obstacle_bottom = 1 - self.is_obstacle(grid_x as i32, grid_y as i32 - 1);
            let non_obstacle_top = 1 - self.is_obstacle(grid_x as i32, grid_y as i32 + 1);
            let fluid_right = self.is_fluid(grid_x as i32 + 1, grid_y as i32);
            let fluid_top = self.is_fluid(grid_x as i32, grid_y as i32 + 1);
            let open = (non_obstacle_left + non_obstacle_right + non_obstacle_bottom
                + non_obstacle_top) as i8;
            diag_laplacian.set(fluid_index, open);
            plus_x_laplacian.set(fluid_index, -(fluid_right as i8));
            plus_y_laplacian.set(fluid_index, -(fluid_top as i8));
            proof {
                let taken = fluid_cells@.take(k as int);
                assert(fluid_cells@.take(k + 1) == taken.push(fluid_cells@[k as int]));
                assert forall|c: int| 0 <= c < cells && c != fluid_index as int implies (#[trigger] fluid_cells@.take(
                    k + 1,
                ).contains(c as u32) == taken.contains(c as u32)) by {
                    if fluid_cells@.take(k + 1).contains(c as u32) {
                        let m = choose|m: int| 0 <= m < k + 1 && #[trigger] fluid_cells@.take(k + 1)[m] == c as u32;
                        assert(m < k);
                        assert(taken[m] == c as u32);
                    }
                }
                assert(fluid_cells@.take(k + 1)[k as int] == fluid_index as u32);
            }
            k += 1;
        }
        proof {
            assert(fluid_cells@.take(fluid_cells.len() as int) == fluid_cells@);
            assert forall|c: int| 0 <= c < cells implies #[trigger] fluid_cells@.contains(c as u32) == cell_flag(fl, c) by {
                if fluid_cells@.contains(c as u32) {
                    let m = choose|m: int| 0 <= m < fluid_cells.len() && #[trigger] fluid_cells@[m] == c as u32;
                }
            }
        }
        (diag_laplacian, plus_x_laplacian, plus_y_laplacian)
    }
}

} // verus!

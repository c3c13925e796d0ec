use vstd::prelude::*;
use crate::bitset::{cell_flag, flagged_cells, lemma_flagged_upto, list_flagged, read_flag, set_flag};
use crate::grid::{black_cells, coarse_cell, coarse_of, dims_fit, lemma_cell_index, red_cells, split_red_black, words_for};

verus! {

/// Length of a per-cell array padded to whole chunks of eight.
pub open spec fn chunked_len(cells: int) -> int {
    ((cells + 7) / 8) * 8
}

/// Cell `c` of a `width` by `height` grid and its neighbour in direction `(dx, dy)` are both inside
/// the grid and the neighbour is flagged.
pub open spec fn fluid_left(words: Seq<u64>, width: int, c: int) -> bool {
    c % width > 0 && cell_flag(words, c - 1)
}

pub open spec fn fluid_right(words: Seq<u64>, width: int, c: int) -> bool {
    c % width < width - 1 && cell_flag(words, c + 1)
}

pub open spec fn fluid_below(words: Seq<u64>, width: int, c: int) -> bool {
    c / width > 0 && cell_flag(words, c - width)
}

pub open spec fn fluid_above(words: Seq<u64>, width: int, height: int, c: int) -> bool {
    c / width < height - 1 && cell_flag(words, c + width)
}

/// Diagonal of the five-point Laplacian at a fluid cell: the number of its fluid neighbours.
pub open spec fn stencil_diag(words: Seq<u64>, width: int, height: int, c: int) -> int {
    (if fluid_left(words, width, c) { 1int } else { 0int }) + (if fluid_right(words, width, c) {
        1int
    } else {
        0int
    }) + (if fluid_below(words, width, c) { 1int } else { 0int }) + (if fluid_above(
        words,
        width,
        height,
        c,
    ) {
        1int
    } else {
        0int
    })
}

/// Coupling of a fluid cell to its right neighbour: -1 when that neighbour is fluid.
pub open spec fn stencil_plus_x(words: Seq<u64>, width: int, c: int) -> int {
    if fluid_right(words, width, c) { -1int } else { 0int }
}

/// Coupling of a fluid cell to the neighbour above it: -1 when that neighbour is fluid.
pub open spec fn stencil_plus_y(words: Seq<u64>, width: int, height: int, c: int) -> int {
    if fluid_above(words, width, height, c) { -1int } else { 0int }
}

/// Cell `c` is the coarse cell of some cell of `fine_cells`.
pub open spec fn covers(fine_cells: Seq<u32>, fine_width: int, coarse_width: int, c: int) -> bool {
    exists|k: int|
        0 <= k < fine_cells.len() && #[trigger] coarse_of(fine_cells[k] as int, fine_width, coarse_width)
            == c
}

/// One level of the multigrid hierarchy: which cells hold fluid, the fluid cells listed and split
/// by checkerboard colour, and the integer coefficients of the Laplacian over the fluid cells.
pub struct MultiGridLevel {
    pub width: usize,
    pub height: usize,
    pub cells: usize,
    pub type_fluid: Vec<u64>,
    pub fluid_indices: Vec<u32>,
    pub red_indices: Vec<u32>,
    pub black_indices: Vec<u32>,
    pub diag_laplacian: Vec<i8>,
    pub plus_x_laplacian: Vec<i8>,
    pub plus_y_laplacian: Vec<i8>,
}

impl MultiGridLevel {
    /// The sizes of the level agree with each other and every index fits the integer types used.
    pub open spec fn wf(&self) -> bool {
        &&& 1 <= self.width
        &&& 1 <= self.height
        &&& (self.width + 1) * (self.height + 1) <= i32::MAX
        &&& self.cells == self.width * self.height
        &&& self.type_fluid.len() == words_for(self.cells as int)
        &&& self.diag_laplacian.len() == chunked_len(self.cells as int)
        &&& self.plus_x_laplacian.len() == chunked_len(self.cells as int)
        &&& self.plus_y_laplacian.len() == chunked_len(self.cells as int)
    }

    /// Bounds that follow from `wf`.
    pub proof fn lemma_wf_bounds(&self)
        requires
            self.wf(),
        ensures
            self.width < i32::MAX,
            self.height < i32::MAX,
            self.cells < i32::MAX,
            self.cells <= 64 * self.type_fluid.len(),
            64 * self.type_fluid.len() <= self.cells + 63,
            self.cells <= chunked_len(self.cells as int),
    {
        assert(self.width * self.height < (self.width + 1) * (self.height + 1)) by (nonlinear_arith)
            requires
                1 <= self.width,
                1 <= self.height,
        ;
        assert(self.width < (self.width + 1) * (self.height + 1)) by (nonlinear_arith)
            requires
                1 <= self.width,
                1 <= self.height,
        ;
        assert(self.height < (self.width + 1) * (self.height + 1)) by (nonlinear_arith)
            requires
                1 <= self.width,
                1 <= self.height,
        ;
    }

    /// The fluid flags of the level, one per cell.
    pub open spec fn fluid(&self) -> Seq<u64> {
        self.type_fluid@
    }

    /// The level after a rebuild from the cells of the next finer level: a coarse cell is fluid
    /// when a fine fluid cell lies in it; the lists hold the fluid cells in increasing order and
    /// split by colour; the stencil is the five-point Laplacian over the fluid cells.
    pub open spec fn rebuilt_from(&self, fine_cells: Seq<u32>, fine_width: int) -> bool {
        let w = self.width as int;
        let h = self.height as int;
        let flags = self.type_fluid@;
        &&& forall|c: int|
            0 <= c < 64 * self.type_fluid.len() ==> #[trigger] cell_flag(flags, c) == covers(
                fine_cells,
                fine_width,
                w,
                c,
            )
        &&& self.fluid_indices@ == flagged_cells(flags)
        &&& self.red_indices@ == red_cells(self.fluid_indices@, w as u32)
        &&& self.black_indices@ == black_cells(self.fluid_indices@, w as u32)
        &&& forall|c: int|
            0 <= c < self.cells ==> #[trigger] self.diag_laplacian@[c] == (if cell_flag(flags, c) {
                stencil_diag(flags, w, h, c)
            } else {
                0
            })
        &&& forall|c: int|
            0 <= c < self.cells ==> #[trigger] self.plus_x_laplacian@[c] == (if cell_flag(flags, c) {
                stencil_plus_x(flags, w, c)
            } else {
                0
            })
        &&& forall|c: int|
            0 <= c < self.cells ==> #[trigger] self.plus_y_laplacian@[c] == (if cell_flag(flags, c) {
                stencil_plus_y(flags, w, h, c)
            } else {
                0
            })
    }

    /// No cell of the level holds fluid, no cell is listed and the stencil is zero.
    pub open spec fn blank(&self) -> bool {
        &&& self.fluid_indices@.len() == 0
        &&& self.red_indices@.len() == 0
        &&& self.black_indices@.len() == 0
        &&& forall|c: int| 0 <= c < 64 * self.type_fluid.len() ==> !#[trigger] cell_flag(self.type_fluid@, c)
        &&& forall|c: int| 0 <= c < self.diag_laplacian.len() ==> #[trigger] self.diag_laplacian@[c] == 0
        &&& forall|c: int| 0 <= c < self.plus_x_laplacian.len() ==> #[trigger] self.plus_x_laplacian@[c] == 0
        &&& forall|c: int| 0 <= c < self.plus_y_laplacian.len() ==> #[trigger] self.plus_y_laplacian@[c] == 0
    }

    /// An empty level of the given size: no fluid, no listed cells, a zero stencil, with one flag
    /// bit per cell and the stencil padded to whole chunks of eight. The level is well formed when
    /// its sides are at least one and its indices fit `i32`.
    pub fn new(width: usize, height: usize) -> (r: MultiGridLevel)
        requires
            width * height + 7 <= usize::MAX,
        ensures
            dims_fit(width as int, height as int) ==> r.wf(),
            r.width == width,
            r.height == height,
            r.cells == width * height,
            r.type_fluid.len() == words_for(r.cells as int),
            r.diag_laplacian.len() == chunked_len(r.cells as int),
            r.plus_x_laplacian.len() == chunked_len(r.cells as int),
            r.plus_y_laplacian.len() == chunked_len(r.cells as int),
            r.blank(),
    {
        let cells = width * height;
        let words = cells / 64 + if cells % 64 == 0 { 0 } else { 1 };
        let padded = (cells / 8 + if cells % 8 == 0 { 0 } else { 1 }) * 8;
        assert(words == words_for(cells as int));
        assert(padded == chunked_len(cells as int));
        let r = MultiGridLevel {
            width,
            height,
            cells,
            type_fluid: vec![0u64; words],
            fluid_indices: Vec::new(),
            red_indices: Vec::new(),
            black_indices: Vec::new(),
            diag_laplacian: vec![0i8; padded],
            plus_x_laplacian: vec![0i8; padded],
            plus_y_laplacian: vec![0i8; padded],
        };
        proof {
            assert forall|c: int| 0 <= c < 64 * r.type_fluid.len() implies !#[trigger] cell_flag(
                r.type_fluid@,
                c,
            ) by {
                assert(r.type_fluid@[c / 64] == 0u64);
                let b = (c % 64) as u64;
                assert((0u64 >> b) & 1u64 == 0u64) by (bit_vector);
            }
        }
        r
    }

    /// Whether cell `index` holds fluid: 1 when it does, 0 when not.
    pub fn is_fluid_index(&self, index: usize) -> (r: u64)
        requires
            index < 64 * self.type_fluid.len(),
        ensures
            r == (if cell_flag(self.type_fluid@, index as int) { 1u64 } else { 0u64 }),
    {
        read_flag(&self.type_fluid, index)
    }

    /// Rebuilds the level from the fluid cells of the next finer level, which is twice as wide and
    /// twice as high: marks the coarse cells that hold them, lists the marked cells in increasing
    /// order and by colour, and sets up the Laplacian over them.
    pub fn coarsen_from(&mut self, fine_cells: &Vec<u32>, fine_width: u32)
        requires
            old(self).wf(),
            fine_width == 2 * old(self).width,
            forall|k: int|
                0 <= k < fine_cells.len() ==> #[trigger] fine_cells@[k] < 4 * old(self).cells,
        ensures
            final(self).wf(),
            final(self).width == old(self).width,
            final(self).height == old(self).height,
            final(self).cells == old(self).cells,
            final(self).rebuilt_from(fine_cells@, fine_width as int),
    {
        let new_width = self.width;
        let new_height = self.height;
        let ghost w = new_width as int;
        let ghost h = new_height as int;
        proof {
            self.lemma_wf_bounds();
        }
        let mut flags: Vec<u64> = vec![0u64; self.type_fluid.len()];
        proof {
            assert forall|c: int| 0 <= c < 64 * flags.len() implies !#[trigger] cell_flag(flags@, c) by {
                assert(flags@[c / 64] == 0u64);
                let b = (c % 64) as u64;
                assert((0u64 >> b) & 1u64 == 0u64) by (bit_vector);
            }
        }
        let mut k: usize = 0;
        while k < fine_cells.len()
            invariant
                self.wf(),
                self.width == new_width,
                self.height == new_height,
                w == new_width as int,
                h == new_height as int,
                fine_width == 2 * new_width,
                forall|j: int|
                    0 <= j < fine_cells.len() ==> #[trigger] fine_cells@[j] < 4 * self.cells,
                k <= fine_cells.len(),
                flags.len() == self.type_fluid.len(),
                forall|c: int|
                    0 <= c < 64 * flags.len() && #[trigger] cell_flag(flags@, c) ==> exists|j: int|
                        0 <= j < k && #[trigger] coarse_of(fine_cells@[j] as int, fine_width as int, w)
                            == c,
                forall|j: int|
                    0 <= j < k ==> #[trigger] cell_flag(
                        flags@,
                        coarse_of(fine_cells@[j] as int, fine_width as int, w),
                    ) && coarse_of(fine_cells@[j] as int, fine_width as int, w) < self.cells,
            decreases fine_cells.len() - k,
        {
            let cell_index = fine_cells[k];
            proof {
                self.lemma_wf_bounds();
                lemma_coarse_in_range(cell_index as int, w, h);
            }
            let new_index = coarse_cell(cell_index, fine_width, new_width as u32);
            let ghost before = flags@;
            set_flag(&mut flags, new_index as usize);
            proof {
                assert forall|c: int|
                    0 <= c < 64 * flags.len() && #[trigger] cell_flag(flags@, c) implies exists|j: int|
                    0 <= j < k + 1 && #[trigger] coarse_of(fine_cells@[j] as int, fine_width as int, w)
                        == c by {
                    if c == new_index as int {
                        assert(coarse_of(fine_cells@[k as int] as int, fine_width as int, w) == c);
                    } else {
                        assert(cell_flag(before, c));
                    }
                }
                assert forall|j: int| 0 <= j < k + 1 implies #[trigger] cell_flag(
                    flags@,
                    coarse_of(fine_cells@[j] as int, fine_width as int, w),
                ) && coarse_of(fine_cells@[j] as int, fine_width as int, w) < self.cells by {
                    lemma_coarse_in_range(fine_cells@[j] as int, w, h);
                }
            }
            k += 1;
        }
        self.type_fluid = flags;
        proof {
            assert(64 * self.type_fluid.len() <= u32::MAX + 1);
        }
        self.fluid_indices = list_flagged(&self.type_fluid);
        let (red, black) = split_red_black(&self.fluid_indices, new_width as u32);
        self.red_indices = red;
        self.black_indices = black;
        let ghost fl = self.type_fluid@;
        proof {
            lemma_flagged_upto(fl, 64 * self.type_fluid.len() as int);
            assert forall|c: int| 0 <= c < 64 * self.type_fluid.len() && #[trigger] cell_flag(fl, c) implies c < self.cells by {
                let j = choose|j: int|
                    0 <= j < fine_cells.len() && #[trigger] coarse_of(fine_cells@[j] as int, fine_width as int, w)
                        == c;
            }
        }
        let padded = self.diag_laplacian.len();
        let mut diag_laplacian: Vec<i8> = vec![0i8; padded];
        let mut plus_x_laplacian: Vec<i8> = vec![0i8; padded];
        let mut plus_y_laplacian: Vec<i8> = vec![0i8; padded];
        let mut k: usize = 0;
        while k < self.fluid_indices.len()
            invariant
                self.wf(),
                self.width == new_width,
                self.height == new_height,
                w == new_width as int,
                h == new_height as int,
                self.type_fluid@ == fl,
                self.fluid_indices@ == flagged_cells(fl),
                forall|c: int| 0 <= c < 64 * self.type_fluid.len() && #[trigger] cell_flag(fl, c) ==> c < self.cells,
                forall|m: int|
                    0 <= m < self.fluid_indices.len() ==> cell_flag(fl, #[trigger] self.fluid_indices@[m] as int)
                        && self.fluid_indices@[m] < 64 * self.type_fluid.len(),
                k <= self.fluid_indices.len(),
                padded == chunked_len(self.cells as int),
                diag_laplacian.len() == padded,
                plus_x_laplacian.len() == padded,
                plus_y_laplacian.len() == padded,
                forall|c: int|
                    0 <= c < padded ==> #[trigger] diag_laplacian@[c] == (if self.fluid_indices@.take(
                        k as int,
                    ).contains(c as u32) {
                        stencil_diag(fl, w, h, c)
                    } else {
                        0
                    }),
                forall|c: int|
                    0 <= c < padded ==> #[trigger] plus_x_laplacian@[c] == (if self.fluid_indices@.take(
                        k as int,
                    ).contains(c as u32) {
                        stencil_plus_x(fl, w, c)
                    } else {
                        0
                    }),
                forall|c: int|
                    0 <= c < padded ==> #[trigger] plus_y_laplacian@[c] == (if self.fluid_indices@.take(
                        k as int,
                    ).contains(c as u32) {
                        stencil_plus_y(fl, w, h, c)
                    } else {
                        0
                    }),
            decreases self.fluid_indices.len() - k,
        {
            let cell_index = self.fluid_indices[k];
            proof {
                self.lemma_wf_bounds();
            }
            let index = cell_index as usize;
            let x = cell_index % new_width as u32;
            let y = cell_index / new_width as u32;
            proof {
                assert(cell_flag(fl, index as int));
                assert(index < self.cells);
                vstd::arithmetic::div_mod::lemma_fundamental_div_mod(index as int, w);
                assert(index as int == y * w + x) by (nonlinear_arith)
                    requires
                        index as int == w * (index as int / w) + index as int % w,
                        x == index as int % w,
                        y == index as int / w,
                ;
                assert(y < h) by (nonlinear_arith)
                    requires
                        index as int == y * w + x,
                        index < w * h,
                        0 <= x,
                        w >= 1,
                ;
                if x < w - 1 {
                    lemma_cell_index(w, h, x + 1, y as int);
                }
                if y < h - 1 {
                    lemma_cell_index(w, h, x as int, y + 1);
                    assert((y + 1) * w + x == index + w) by (nonlinear_arith)
                        requires
                            index as int == y * w + x,
                    ;
                }
                if y > 0 {
                    assert(index >= w) by (nonlinear_arith)
                        requires
                            index as int == y * w + x,
                            y >= 1,
                            x >= 0,
                    ;
                }
            }
            let mut diag: i8 = 0;
            if x > 0 && self.is_fluid_index(index - 1) == 1 {
                diag += 1;
            }
            if x < new_width as u32 - 1 && self.is_fluid_index(index + 1) == 1 {
                diag += 1;
                plus_x_laplacian.set(index, -1);
            } else {
                plus_x_laplacian.set(index, 0);
            }
            if y > 0 && self.is_fluid_index(index - new_width) == 1 {
                diag += 1;
            }
            if y < new_height as u32 - 1 && self.is_fluid_index(index + new_width) == 1 {
                diag += 1;
                plus_y_laplacian.set(index, -1);
            } else {
                plus_y_laplacian.set(index, 0);
            }
            diag_laplacian.set(index, diag);
            proof {
                let taken = self.fluid_indices@.take(k as int);
                assert(self.fluid_indices@.take(k + 1) == taken.push(cell_index));
                assert forall|c: int| 0 <= c < padded && c != index as int implies (#[trigger] self.fluid_indices@.take(
                    k + 1,
                ).contains(c as u32) == taken.contains(c as u32)) by {
                    if self.fluid_indices@.take(k + 1).contains(c as u32) {
                        let m = choose|m: int| 0 <= m < k + 1 && #[trigger] self.fluid_indices@.take(k + 1)[m] == c as u32;
                        assert(m < k);
                        assert(taken[m] == c as u32);
                    }
                }
                assert(self.fluid_indices@.take(k + 1)[k as int] == cell_index);
            }
            k += 1;
        }
        proof {
            assert(self.fluid_indices@.take(self.fluid_indices.len() as int) == self.fluid_indices@);
        }
        self.diag_laplacian = diag_laplacian;
        self.plus_x_laplacian = plus_x_laplacian;
        self.plus_y_laplacian = plus_y_laplacian;
        proof {
            assert forall|c: int| 0 <= c < 64 * self.type_fluid.len() implies #[trigger] cell_flag(fl, c) == covers(
                fine_cells@,
                fine_width as int,
                w,
                c,
            ) by {
                if covers(fine_cells@, fine_width as int, w, c) {
                    let j = choose|j: int|
                        0 <= j < fine_cells.len() && #[trigger] coarse_of(fine_cells@[j] as int, fine_width as int, w)
                            == c;
                }
            }
            assert forall|c: int| 0 <= c < self.cells implies #[trigger] self.fluid_indices@.contains(c as u32) == cell_flag(fl, c) by {
                if self.fluid_indices@.contains(c as u32) {
                    let m = choose|m: int| 0 <= m < self.fluid_indices.len() && #[trigger] self.fluid_indices@[m] == c as u32;
                }
            }
        }
    }
}

/// On a rebuilt level every row of the Laplacian over a fluid cell sums to zero: the diagonal
/// counts the fluid neighbours, and the coupling between two neighbouring fluid cells is -1 in
/// both of their rows.
pub proof fn lemma_stencil_rows_sum_to_zero(
    level: MultiGridLevel,
    fine_cells: Seq<u32>,
    fine_width: int,
    c: int,
)
    requires
        level.wf(),
        level.rebuilt_from(fine_cells, fine_width),
        0 <= c < level.cells,
        cell_flag(level.type_fluid@, c),
    ensures
        level.diag_laplacian@[c] + level.plus_x_laplacian@[c] + level.plus_y_laplacian@[c] + (if c
            % (level.width as int) > 0 {
            level.plus_x_laplacian@[c - 1] as int
        } else {
            0
        }) + (if c / (level.width as int) > 0 {
            level.plus_y_laplacian@[c - level.width] as int
        } else {
            0
        }) == 0,
{
    let w = level.width as int;
    let h = level.height as int;
    let fl = level.type_fluid@;
    level.lemma_wf_bounds();
    vstd::arithmetic::div_mod::lemma_fundamental_div_mod(c, w);
    let x = c % w;
    let y = c / w;
    assert(c == y * w + x) by (nonlinear_arith)
        requires
            c == w * (c / w) + c % w,
            x == c % w,
            y == c / w,
    ;
    assert(0 <= y < h) by (nonlinear_arith)
        requires
            c == y * w + x,
            0 <= c < w * h,
            0 <= x < w,
    ;
    assert(level.diag_laplacian@[c] == stencil_diag(fl, w, h, c));
    if x > 0 {
        lemma_cell_index(w, h, x - 1, y);
        assert(y * w + (x - 1) == c - 1);
        assert(level.plus_x_laplacian@[c - 1] == (if cell_flag(fl, c - 1) {
            stencil_plus_x(fl, w, c - 1)
        } else {
            0
        }));
    }
    if y > 0 {
        lemma_cell_index(w, h, x, y - 1);
        assert((y - 1) * w + x == c - w) by (nonlinear_arith)
            requires
                c == y * w + x,
        ;
        assert(level.plus_y_laplacian@[c - w] == (if cell_flag(fl, c - w) {
            stencil_plus_y(fl, w, h, c - w)
        } else {
            0
        }));
    }
}

/// On a rebuilt level the stencil row of a fluid cell at column `x`, row `y` only reaches cells
/// inside the grid: the diagonal counts the fluid cells among `(x - 1, y)`, `(x + 1, y)`,
/// `(x, y - 1)` and `(x, y + 1)` that lie in the grid, and the coupling to `(x + 1, y)` or to
/// `(x, y + 1)` is -1 exactly when that cell lies in the grid and holds fluid. In particular a cell
/// in the last column has no coupling to the right and a cell in the top row none upwards.
pub proof fn lemma_stencil_stays_in_grid(level: MultiGridLevel, fine_cells: Seq<u32>, fine_width: int, c: int)
    requires
        level.wf(),
        level.rebuilt_from(fine_cells, fine_width),
        0 <= c < level.cells,
        cell_flag(level.type_fluid@, c),
    ensures
        ({
            let w = level.width as int;
            let h = level.height as int;
            let x = c % w;
            let y = c / w;
            let f = level.type_fluid@;
            &&& level.diag_laplacian@[c] == (if x >= 1 && cell_flag(f, y * w + (x - 1)) {
                1int
            } else {
                0int
            }) + (if x + 1 < w && cell_flag(f, y * w + (x + 1)) {
                1int
            } else {
                0int
            }) + (if y >= 1 && cell_flag(f, (y - 1) * w + x) {
                1int
            } else {
                0int
            }) + (if y + 1 < h && cell_flag(f, (y + 1) * w + x) {
                1int
            } else {
                0int
            })
            &&& level.plus_x_laplacian@[c] == (if x + 1 < w && cell_flag(f, y * w + (x + 1)) {
                -1int
            } else {
                0int
            })
            &&& level.plus_y_laplacian@[c] == (if y + 1 < h && cell_flag(f, (y + 1) * w + x) {
                -1int
            } else {
                0int
            })
            &&& x == w - 1 ==> level.plus_x_laplacian@[c] == 0
            &&& y == h - 1 ==> level.plus_y_laplacian@[c] == 0
        }),
{
    let w = level.width as int;
    let h = level.height as int;
    level.lemma_wf_bounds();
    vstd::arithmetic::div_mod::lemma_fundamental_div_mod(c, w);
    let x = c % w;
    let y = c / w;
    assert(c == y * w + x) by (nonlinear_arith)
        requires
            c == w * (c / w) + c % w,
            x == c % w,
            y == c / w,
    ;
    assert(0 <= y < h) by (nonlinear_arith)
        requires
            c == y * w + x,
            0 <= c < w * h,
            0 <= x < w,
    ;
    assert((y - 1) * w + x == c - w) by (nonlinear_arith)
        requires
            c == y * w + x,
    ;
    assert((y + 1) * w + x == c + w) by (nonlinear_arith)
        requires
            c == y * w + x,
    ;
    assert(level.diag_laplacian@[c] == stencil_diag(level.type_fluid@, w, h, c));
}

/// A cell of a grid twice as wide and twice as high lies in a cell of this grid.
pub proof fn lemma_coarse_in_range(cell: int, w: int, h: int)
    requires
        0 <= cell < 4 * (w * h),
        1 <= w,
        1 <= h,
    ensures
        0 <= coarse_of(cell, 2 * w, w) < w * h,
{
    let fw = 2 * w;
    let y = cell / fw;
    let x = cell % fw;
    vstd::arithmetic::div_mod::lemma_fundamental_div_mod(cell, fw);
    assert(0 <= x < fw);
    assert(0 <= y < 2 * h) by (nonlinear_arith)
        requires
            cell == fw * y + x,
            0 <= x < fw,
            0 <= cell < 4 * (w * h),
            fw == 2 * w,
            w >= 1,
    ;
    lemma_cell_index(w, h, x / 2, y / 2);
}

} // verus!

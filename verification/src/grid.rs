use vstd::prelude::*;
use vstd::arithmetic::div_mod::lemma_fundamental_div_mod_converse;
use vstd::arithmetic::mul::{lemma_mul_inequality, lemma_mul_is_distributive_add};
use crate::bitset::{cell_flag, read_flag, set_flag};

verus! {

/// Grid sizes for which every cell, face and lookup index that the simulation forms fits in `i32`.
pub open spec fn dims_fit(width: int, height: int) -> bool {
    &&& 1 <= width
    &&& 1 <= height
    &&& (width + 1) * (height + 1) <= i32::MAX
}

/// `v` clamped into `[lo, hi]`.
pub open spec fn clamp(v: int, lo: int, hi: int) -> int {
    if v < lo {
        lo
    } else if v > hi {
        hi
    } else {
        v
    }
}

/// Cell `(x, y)` lies inside a `width` by `height` grid.
pub open spec fn in_grid(width: int, height: int, x: int, y: int) -> bool {
    0 <= x < width && 0 <= y < height
}

/// Cell `(x, y)` lies on the outermost ring of cells.
pub open spec fn on_border(width: int, height: int, x: int, y: int) -> bool {
    x == 0 || x == width - 1 || y == 0 || y == height - 1
}

/// Clamping gives a value in `[lo, hi]`, the value itself when it already lies there, and the
/// nearer end otherwise.
pub proof fn lemma_clamp_range(v: int, lo: int, hi: int)
    requires
        lo <= hi,
    ensures
        lo <= clamp(v, lo, hi) <= hi,
        lo <= v <= hi ==> clamp(v, lo, hi) == v,
        v < lo ==> clamp(v, lo, hi) == lo,
        v > hi ==> clamp(v, lo, hi) == hi,
{
}

/// Row-major numbering of cells: index `y * width + x` names cell `(x, y)` and no other.
pub proof fn lemma_cell_index(width: int, height: int, x: int, y: int)
    requires
        0 <= x < width,
        0 <= y < height,
    ensures
        0 <= y * width + x < width * height,
        (y * width + x) / width == y,
        (y * width + x) % width == x,
{
    lemma_fundamental_div_mod_converse(y * width + x, width, y, x);
    lemma_mul_inequality(y + 1, height, width);
    lemma_mul_is_distributive_add(width, y, 1);
    assert(0 <= y * width) by (nonlinear_arith)
        requires
            0 <= y,
            0 <= width,
    ;
    assert(width * height == height * width) by (nonlinear_arith);
    assert((y + 1) * width == y * width + width) by (nonlinear_arith);
}

proof fn lemma_dims_bounds(width: int, height: int)
    requires
        dims_fit(width, height),
    ensures
        width * height < (width + 1) * height,
        (width + 1) * height <= (width + 1) * (height + 1),
        width * (height + 1) <= (width + 1) * (height + 1),
        (width + 1) * (height + 1) <= i32::MAX,
        width <= i32::MAX,
        height <= i32::MAX,
{
    assert(width * height < (width + 1) * height) by (nonlinear_arith)
        requires
            1 <= height,
    ;
    assert((width + 1) * height <= (width + 1) * (height + 1)) by (nonlinear_arith)
        requires
            1 <= width,
    ;
    assert(width * (height + 1) <= (width + 1) * (height + 1)) by (nonlinear_arith)
        requires
            1 <= height,
    ;
    assert(width <= (width + 1) * (height + 1)) by (nonlinear_arith)
        requires
            1 <= width,
            1 <= height,
    ;
    assert(height <= (width + 1) * (height + 1)) by (nonlinear_arith)
        requires
            1 <= width,
            1 <= height,
    ;
}

/// Index of the horizontal-velocity face at column `i`, row `j`, both clamped into the face grid
/// (`width + 1` columns, `height` rows).
pub fn u_face_index(width: u32, height: u32, i: i32, j: i32) -> (r: u32)
    requires
        dims_fit(width as int, height as int),
    ensures
        r == clamp(j as int, 0, height - 1) * (width + 1) + clamp(i as int, 0, width as int),
        r < (width + 1) * height,
{
    proof {
        lemma_dims_bounds(width as int, height as int);
    }
    let w = width as i32;
    let h = height as i32;
    let clamped_i: u32 = if i > w {
        width
    } else if i < 0 {
        0
    } else {
        i as u32
    };
    let clamped_j: u32 = if j > h - 1 {
        height - 1
    } else if j < 0 {
        0
    } else {
        j as u32
    };
    proof {
        lemma_mul_inequality(clamped_j as int, height - 1, width + 1);
        assert((height - 1) * (width + 1) + width < (width + 1) * height) by (nonlinear_arith);
    }
    (clamped_j * (width + 1)) + clamped_i
}

/// Index of the vertical-velocity face at column `i`, row `j`, both clamped into the face grid
/// (`width` columns, `height + 1` rows).
pub fn v_face_index(width: u32, height: u32, i: i32, j: i32) -> (r: u32)
    requires
        dims_fit(width as int, height as int),
    ensures
        r == clamp(j as int, 0, height as int) * width + clamp(i as int, 0, width - 1),
        r < width * (height + 1),
{
    proof {
        lemma_dims_bounds(width as int, height as int);
    }
    let w = width as i32;
    let h = height as i32;
    let clamped_i: u32 = if i > w - 1 {
        width - 1
    } else if i < 0 {
        0
    } else {
        i as u32
    };
    let clamped_j: u32 = if j > h {
        height
    } else if j < 0 {
        0
    } else {
        j as u32
    };
    proof {
        lemma_mul_inequality(clamped_j as int, height as int, width as int);
        assert(height * width + (width - 1) < width * (height + 1)) by (nonlinear_arith);
    }
    (clamped_j * width) + clamped_i
}

/// `u_face_index` on each of eight lanes.
pub fn u_index_simd(width: u32, height: u32, i: [i32; 8], j: [i32; 8]) -> (r: [u32; 8])
    requires
        dims_fit(width as int, height as int),
    ensures
        forall|l: int|
            0 <= l < 8 ==> #[trigger] r[l] == clamp(j[l] as int, 0, height - 1) * (width + 1)
                + clamp(i[l] as int, 0, width as int),
{
    let mut r: [u32; 8] = [0u32; 8];
    let mut l: usize = 0;
    while l < 8
        invariant
            l <= 8,
            dims_fit(width as int, height as int),
            forall|m: int|
                0 <= m < l ==> #[trigger] r[m] == clamp(j[m] as int, 0, height - 1) * (width + 1)
                    + clamp(i[m] as int, 0, width as int),
        decreases 8 - l,
    {
        r[l] = u_face_index(width, height, i[l], j[l]);
        l += 1;
    }
    r
}

/// `v_face_index` on each of eight lanes.
pub fn v_index_simd(width: u32, height: u32, i: [i32; 8], j: [i32; 8]) -> (r: [u32; 8])
    requires
        dims_fit(width as int, height as int),
    ensures
        forall|l: int|
            0 <= l < 8 ==> #[trigger] r[l] == clamp(j[l] as int, 0, height as int) * width
                + clamp(i[l] as int, 0, width - 1),
{
    let mut r: [u32; 8] = [0u32; 8];
    let mut l: usize = 0;
    while l < 8
        invariant
            l <= 8,
            dims_fit(width as int, height as int),
            forall|m: int|
                0 <= m < l ==> #[trigger] r[m] == clamp(j[m] as int, 0, height as int) * width
                    + clamp(i[m] as int, 0, width - 1),
        decreases 8 - l,
    {
        r[l] = v_face_index(width, height, i[l], j[l]);
        l += 1;
    }
    r
}

/// The flag of cell `(i, j)` of a bitset laid out row by row, and `outside` for any cell off the grid.
pub fn grid_flag(words: &Vec<u64>, width: u32, height: u32, i: i32, j: i32, outside: u64) -> (r: u64)
    requires
        dims_fit(width as int, height as int),
        width * height <= 64 * words.len(),
    ensures
        r == (if !in_grid(width as int, height as int, i as int, j as int) {
            outside
        } else if cell_flag(words@, j * width + i) {
            1u64
        } else {
            0u64
        }),
{
    proof {
        lemma_dims_bounds(width as int, height as int);
    }
    if i < 0 || i >= width as i32 || j < 0 || j >= height as i32 {
        return outside;
    }
    proof {
        lemma_cell_index(width as int, height as int, i as int, j as int);
    }
    let index = ((j * width as i32) + i) as u32;
    read_flag(words, index as usize)
}

/// Number of 64-bit words that hold one flag per cell.
pub open spec fn words_for(cells: int) -> int {
    (cells + 63) / 64
}

/// The obstacle bitset of a fresh grid: exactly the cells of the outermost ring are flagged.
pub fn border_obstacles(width: u32, height: u32) -> (r: Vec<u64>)
    requires
        dims_fit(width as int, height as int),
    ensures
        r.len() == words_for(width * height),
        forall|x: int, y: int|
            in_grid(width as int, height as int, x, y) ==> #[trigger] cell_flag(r@, y * width + x)
                == on_border(width as int, height as int, x, y),
        forall|c: int| width * height <= c < 64 * r.len() ==> !#[trigger] cell_flag(r@, c),
{
    proof {
        lemma_dims_bounds(width as int, height as int);
    }
    let cells = width * height;
    let mut words: Vec<u64> = vec![0u64; ((cells + 63) / 64) as usize];
    proof {
        assert forall|c: int| 0 <= c < 64 * words.len() implies !#[trigger] cell_flag(words@, c) by {
            assert(words@[c / 64] == 0u64);
            let b = (c % 64) as u64;
            assert((0u64 >> b) & 1u64 == 0u64) by (bit_vector);
        }
        assert(64 * words.len() >= width * height);
        assert forall|xx: int, yy: int|
            in_grid(width as int, height as int, xx, yy) implies !#[trigger] cell_flag(
            words@,
            yy * width + xx,
        ) by {
            lemma_cell_index(width as int, height as int, xx, yy);
        }
    }
    let mut y: u32 = 0;
    while y < height
        invariant
            dims_fit(width as int, height as int),
            cells == width * height,
            y <= height,
            words.len() == words_for(width * height),
            forall|xx: int, yy: int|
                in_grid(width as int, height as int, xx, yy) ==> #[trigger] cell_flag(
                    words@,
                    yy * width + xx,
                ) == (on_border(width as int, height as int, xx, yy) && yy < y),
            forall|c: int| width * height <= c < 64 * words.len() ==> !#[trigger] cell_flag(words@, c),
        decreases height - y,
    {
        let mut x: u32 = 0;
        while x < width
            invariant
                dims_fit(width as int, height as int),
                cells == width * height,
                y < height,
                x <= width,
                words.len() == words_for(width * height),
                forall|xx: int, yy: int|
                    in_grid(width as int, height as int, xx, yy) ==> #[trigger] cell_flag(
                        words@,
                        yy * width + xx,
                    ) == (on_border(width as int, height as int, xx, yy) && (yy < y || (yy == y
                        && xx < x))),
                forall|c: int| width * height <= c < 64 * words.len() ==> !#[trigger] cell_flag(words@, c),
            decreases width - x,
        {
            if x == 0 || x == width - 1 || y == 0 || y == height - 1 {
                proof {
                    lemma_cell_index(width as int, height as int, x as int, y as int);
                }
                let index = y * width + x;
                let ghost before = words@;
                set_flag(&mut words, index as usize);
                proof {
                    assert forall|xx: int, yy: int|
                        in_grid(width as int, height as int, xx, yy) implies #[trigger] cell_flag(
                        words@,
                        yy * width + xx,
                    ) == (on_border(width as int, height as int, xx, yy) && (yy < y || (yy == y
                        && xx <= x))) by {
                        lemma_cell_index(width as int, height as int, xx, yy);
                        lemma_cell_index(width as int, height as int, x as int, y as int);
                        assert(cell_flag(words@, yy * width + xx) == (cell_flag(before, yy * width + xx)
                            || yy * width + xx == index));
                    }
                }
            }
            x += 1;
        }
        y += 1;
    }
    words
}


/// Cell `(x, y)` starts filled with particles: an interior cell more than four cells from the left,
/// right and bottom walls and below half the height.
pub open spec fn is_seed_cell(width: int, height: int, x: int, y: int) -> bool {
    !on_border(width, height, x, y) && 4 < x && x < width - 4 && 4 < y && y < height / 2
}

/// The seed cells among the first `n` cells of row `y`, left to right.
pub open spec fn seed_row(width: int, height: int, y: int, n: int) -> Seq<(u32, u32)>
    decreases n,
{
    if n <= 0 {
        Seq::empty()
    } else {
        let prefix = seed_row(width, height, y, n - 1);
        if is_seed_cell(width, height, n - 1, y) {
            prefix.push(((n - 1) as u32, y as u32))
        } else {
            prefix
        }
    }
}

/// The seed cells of the first `n` rows, row by row.
pub open spec fn seed_rows(width: int, height: int, n: int) -> Seq<(u32, u32)>
    decreases n,
{
    if n <= 0 {
        Seq::empty()
    } else {
        seed_rows(width, height, n - 1) + seed_row(width, height, n - 1, width)
    }
}

proof fn lemma_seed_row_len(width: int, height: int, y: int, n: int)
    requires
        0 <= n,
    ensures
        seed_row(width, height, y, n).len() <= n,
    decreases n,
{
    if n > 0 {
        lemma_seed_row_len(width, height, y, n - 1);
    }
}

/// At most one seed per cell.
pub proof fn lemma_seed_count(width: int, height: int, n: int)
    requires
        0 <= n,
        0 <= width,
    ensures
        seed_rows(width, height, n).len() <= n * width,
    decreases n,
{
    if n > 0 {
        lemma_seed_count(width, height, n - 1);
        lemma_seed_row_len(width, height, n - 1, width);
        assert((n - 1) * width + width == n * width) by (nonlinear_arith);
    }
}

proof fn lemma_seed_row_count(width: int, height: int, y: int, n: int)
    requires
        0 <= n,
        1 <= height,
    ensures
        seed_row(width, height, y, n).len() == (if 4 < y && y < height / 2 {
            let hi = if n < width - 4 { n } else { width - 4 };
            if hi > 5 { hi - 5 } else { 0 }
        } else {
            0
        }),
    decreases n,
{
    if n > 0 {
        lemma_seed_row_count(width, height, y, n - 1);
    }
}

proof fn lemma_seed_rows_count(width: int, height: int, n: int)
    requires
        0 <= n,
        0 <= width,
        1 <= height,
    ensures
        seed_rows(width, height, n).len() == (if width > 9 { width - 9 } else { 0 }) * ({
            let hi = if n < height / 2 { n } else { height / 2 };
            if hi > 5 { hi - 5 } else { 0 }
        }),
    decreases n,
{
    if n > 0 {
        lemma_seed_rows_count(width, height, n - 1);
        lemma_seed_row_count(width, height, n - 1, width);
        let a = if width > 9 { width - 9 } else { 0 };
        let hi0 = if n - 1 < height / 2 { n - 1 } else { height / 2 };
        let hi1 = if n < height / 2 { n } else { height / 2 };
        let r0 = if hi0 > 5 { hi0 - 5 } else { 0 };
        let r1 = if hi1 > 5 { hi1 - 5 } else { 0 };
        assert(r1 == r0 + (if 4 < n - 1 && n - 1 < height / 2 { 1int } else { 0int }));
        assert(a * r1 == a * r0 + a * (if 4 < n - 1 && n - 1 < height / 2 { 1int } else { 0int }))
            by (nonlinear_arith)
            requires
                r1 == r0 + (if 4 < n - 1 && n - 1 < height / 2 { 1int } else { 0int }),
        ;
    }
}

/// A fresh `width` by `height` grid seeds every cell more than four cells from the left, right and
/// bottom edges and below half the height, and no other: `(width - 9)` columns by
/// `(height / 2 - 5)` rows of cells, each count taken as zero when negative.
pub proof fn lemma_seed_cell_count(width: int, height: int)
    requires
        0 <= width,
        1 <= height,
    ensures
        seed_rows(width, height, height).len() == (if width > 9 { width - 9 } else { 0 }) * (if height
            / 2 > 5 {
            height / 2 - 5
        } else {
            0
        }),
{
    lemma_seed_rows_count(width, height, height);
}

/// The cells that a fresh simulation fills with particles, in row-major order.
pub fn seed_cells(width: u32, height: u32) -> (r: Vec<(u32, u32)>)
    ensures
        r@ == seed_rows(width as int, height as int, height as int),
        height >= 1 ==> r.len() == (if width > 9 { width - 9 } else { 0 }) * (if height / 2 > 5 {
            height / 2 - 5
        } else {
            0
        }),
{
    proof {
        if height >= 1 {
            lemma_seed_cell_count(width as int, height as int);
        }
    }
    let mut out: Vec<(u32, u32)> = Vec::new();
    let mut y: u32 = 0;
    while y < height
        invariant
            y <= height,
            out@ == seed_rows(width as int, height as int, y as int),
        decreases height - y,
    {
        let ghost row_start = out@;
        let mut x: u32 = 0;
        while x < width
            invariant
                y < height,
                x <= width,
                out@ == row_start + seed_row(width as int, height as int, y as int, x as int),
            decreases width - x,
        {
            if x == 0 || x == width - 1 || y == 0 || y == height - 1 {
            } else {
                if x > 4 && x < width - 4 && y > 4 && y < height / 2 {
                    out.push((x, y));
                }
            }
            proof {
                assert(out@ == row_start + seed_row(width as int, height as int, y as int, x + 1));
            }
            x += 1;
        }
        y += 1;
    }
    out
}

/// The sizes of the coarser levels of the multigrid hierarchy: each halves both sides of the one
/// before it, as long as both sides are even and larger than four.
pub open spec fn level_sizes(width: int, height: int) -> Seq<(usize, usize)>
    decreases width,
{
    if width % 2 == 0 && height % 2 == 0 && width > 4 && height > 4 {
        seq![((width / 2) as usize, (height / 2) as usize)] + level_sizes(width / 2, height / 2)
    } else {
        Seq::empty()
    }
}

/// The sizes of the coarser multigrid levels below a `width` by `height` grid.
pub fn multigrid_sizes(width: usize, height: usize) -> (r: Vec<(usize, usize)>)
    ensures
        r@ == level_sizes(width as int, height as int),
        r.len() > 0 <==> (width % 2 == 0 && height % 2 == 0 && width > 4 && height > 4),
        r.len() > 0 ==> r@[0] == (width / 2, height / 2) && r@.drop_first() == level_sizes(
            (width / 2) as int,
            (height / 2) as int,
        ),
{
    proof {
        lemma_level_sizes_rule(width as int, height as int);
    }
    let mut out: Vec<(usize, usize)> = Vec::new();
    let mut current_width = width;
    let mut current_height = height;
    while current_width % 2 == 0 && current_height % 2 == 0 && current_width > 4 && current_height
        > 4
        invariant
            out@ + level_sizes(current_width as int, current_height as int) == level_sizes(
                width as int,
                height as int,
            ),
        decreases current_width,
    {
        current_width = current_width / 2;
        current_height = current_height / 2;
        out.push((current_width, current_height));
        proof {
            assert(out@ + level_sizes(current_width as int, current_height as int) =~= level_sizes(
                width as int,
                height as int,
            ));
        }
    }
    out
}

proof fn lemma_shl_one_double(e: u32)
    by (bit_vector)
    requires
        e < 31,
    ensures
        (1u32 << e) < 0x80000000u32,
        (1u32 << e) >= 1u32,
        ((1u32 << e) * 2) as u32 == 1u32 << ((e + 1) as u32),
        (1u32 << ((e + 1) as u32)) / 2 == 1u32 << e,
{
}

/// The smallest power of two that is at least `n` (1 for 0).
pub fn next_power_of_two(n: u32) -> (r: u32)
    requires
        n <= 0x80000000,
    ensures
        exists|e: u32| e <= 31 && r == 1u32 << e,
        n <= r,
        r == 1 || r / 2 < n,
{
    let mut side: u32 = 1;
    let ghost mut e: u32 = 0;
    proof {
        assert(1u32 << 0u32 == 1u32) by (bit_vector);
    }
    while side < n
        invariant
            n <= 0x80000000,
            e <= 31,
            side == 1u32 << e,
            side == 1 || side / 2 < n,
        decreases 31 - e,
    {
        proof {
            if e == 31 {
                assert(1u32 << 31u32 == 0x80000000u32) by (bit_vector);
            }
            lemma_shl_one_double(e);
            assert(side * 2 > side);
        }
        side = side * 2;
        proof {
            e = (e + 1) as u32;
        }
    }
    side
}

/// The coarse cell that holds fine cell `fine_index`: both coordinates halved.
pub open spec fn coarse_of(fine_index: int, fine_width: int, coarse_width: int) -> int {
    ((fine_index / fine_width) / 2) * coarse_width + (fine_index % fine_width) / 2
}

/// The fine cell at offset `(dx, dy)` inside the two-by-two block under coarse cell `coarse_index`.
pub open spec fn fine_of(coarse_index: int, coarse_width: int, fine_width: int, dx: int, dy: int) -> int {
    ((coarse_index / coarse_width) * 2 + dy) * fine_width + (coarse_index % coarse_width) * 2 + dx
}

/// The coarse cell of a fine cell, as the multigrid transfers compute it.
pub fn coarse_cell(fine_index: u32, fine_width: u32, coarse_width: u32) -> (r: u32)
    requires
        fine_width > 0,
        coarse_of(fine_index as int, fine_width as int, coarse_width as int) <= u32::MAX,
    ensures
        r == coarse_of(fine_index as int, fine_width as int, coarse_width as int),
        coarse_width > 0 && fine_width <= 2 * coarse_width ==> r % coarse_width == (fine_index
            % fine_width) / 2 && r / coarse_width == (fine_index / fine_width) / 2,
{
    proof {
        if coarse_width > 0 && fine_width <= 2 * coarse_width {
            lemma_coarse_cell_position(fine_index as int, fine_width as int, coarse_width as int);
        }
    }
    let coarse_x = (fine_index % fine_width) / 2;
    let coarse_y = (fine_index / fine_width) / 2;
    proof {
        assert(0 <= coarse_y * coarse_width) by (nonlinear_arith)
            requires
                0 <= coarse_y,
                0 <= coarse_width,
        ;
    }
    coarse_y * coarse_width + coarse_x
}

/// The fine cell at offset `(dx, dy)` under a coarse cell, as the restriction computes it.
pub fn fine_cell(coarse_index: u32, coarse_width: u32, fine_width: u32, dx: u32, dy: u32) -> (r: u32)
    requires
        coarse_width > 0,
        fine_width > 0,
        dx < 2,
        dy < 2,
        fine_of(coarse_index as int, coarse_width as int, fine_width as int, dx as int, dy as int)
            <= u32::MAX,
    ensures
        r == fine_of(coarse_index as int, coarse_width as int, fine_width as int, dx as int, dy as int),
        2 * coarse_width <= fine_width ==> r % fine_width == (coarse_index % coarse_width) * 2 + dx
            && r / fine_width == (coarse_index / coarse_width) * 2 + dy,
{
    proof {
        if 2 * coarse_width <= fine_width {
            lemma_fine_cell_position(
                coarse_index as int,
                coarse_width as int,
                fine_width as int,
                dx as int,
                dy as int,
            );
        }
    }
    let coarse_x = coarse_index % coarse_width;
    let coarse_y = coarse_index / coarse_width;
    proof {
        let fy = (coarse_y * 2 + dy) as int;
        let fx = (coarse_x * 2 + dx) as int;
        assert(fine_of(coarse_index as int, coarse_width as int, fine_width as int, dx as int, dy as int)
            == fy * fine_width + fx);
        assert(fy <= fy * fine_width) by (nonlinear_arith)
            requires
                fine_width >= 1,
                fy >= 0,
        ;
    }
    let fine_x = coarse_x * 2 + dx;
    let fine_y = coarse_y * 2 + dy;
    proof {
        assert(0 <= fine_y * fine_width) by (nonlinear_arith)
            requires
                0 <= fine_y,
                0 <= fine_width,
        ;
    }
    fine_y * fine_width + fine_x
}

/// The coarse cell of a fine cell lies in half the fine cell's column and half its row (rounded
/// down), on a coarse level at least half as wide.
pub proof fn lemma_coarse_cell_position(fine_index: int, fine_width: int, coarse_width: int)
    requires
        fine_width > 0,
        coarse_width > 0,
        fine_index >= 0,
        fine_width <= 2 * coarse_width,
    ensures
        coarse_of(fine_index, fine_width, coarse_width) % coarse_width == (fine_index % fine_width)
            / 2,
        coarse_of(fine_index, fine_width, coarse_width) / coarse_width == (fine_index / fine_width)
            / 2,
{
    let fx = fine_index % fine_width;
    let fy = fine_index / fine_width;
    assert(fy >= 0) by (nonlinear_arith)
        requires
            fine_index >= 0,
            fine_width > 0,
            fy == fine_index / fine_width,
    ;
    lemma_fundamental_div_mod_converse(coarse_of(fine_index, fine_width, coarse_width), coarse_width, fy / 2, fx / 2);
}

/// The fine cell at offset `(dx, dy)` under a coarse cell lies in the column twice the coarse
/// column plus `dx` and in the row twice the coarse row plus `dy`, on a fine level at least twice
/// as wide.
pub proof fn lemma_fine_cell_position(
    coarse_index: int,
    coarse_width: int,
    fine_width: int,
    dx: int,
    dy: int,
)
    requires
        coarse_width > 0,
        coarse_index >= 0,
        2 * coarse_width <= fine_width,
        0 <= dx < 2,
        0 <= dy < 2,
    ensures
        fine_of(coarse_index, coarse_width, fine_width, dx, dy) % fine_width == (coarse_index
            % coarse_width) * 2 + dx,
        fine_of(coarse_index, coarse_width, fine_width, dx, dy) / fine_width == (coarse_index
            / coarse_width) * 2 + dy,
{
    let cx = coarse_index % coarse_width;
    let cy = coarse_index / coarse_width;
    assert(cy >= 0) by (nonlinear_arith)
        requires
            coarse_index >= 0,
            coarse_width > 0,
            cy == coarse_index / coarse_width,
    ;
    let f = fine_of(coarse_index, coarse_width, fine_width, dx, dy);
    assert(f == (cy * 2 + dy) * fine_width + (cx * 2 + dx));
    lemma_fundamental_div_mod_converse(f, fine_width, cy * 2 + dy, cx * 2 + dx);
}

/// The multigrid hierarchy halves the grid while both sides are even and larger than four: for
/// such a grid the levels are its halving followed by the levels of the halved grid; for any other
/// grid there are none.
pub proof fn lemma_level_sizes_rule(width: int, height: int)
    ensures
        width % 2 == 0 && height % 2 == 0 && width > 4 && height > 4 ==> level_sizes(width, height)
            == seq![((width / 2) as usize, (height / 2) as usize)] + level_sizes(width / 2, height / 2),
        !(width % 2 == 0 && height % 2 == 0 && width > 4 && height > 4) ==> level_sizes(
            width,
            height,
        ).len() == 0,
{
}

/// Restriction and prolongation agree: each fine cell of the block under a coarse cell maps back to
/// that coarse cell, when the fine level is twice as wide as the coarse one.
pub proof fn lemma_fine_block_maps_back(coarse_index: int, coarse_width: int, dx: int, dy: int)
    requires
        coarse_width > 0,
        coarse_index >= 0,
        0 <= dx < 2,
        0 <= dy < 2,
    ensures
        coarse_of(fine_of(coarse_index, coarse_width, 2 * coarse_width, dx, dy), 2 * coarse_width, coarse_width)
            == coarse_index,
{
    let cx = coarse_index % coarse_width;
    let cy = coarse_index / coarse_width;
    let fw = 2 * coarse_width;
    let f = fine_of(coarse_index, coarse_width, fw, dx, dy);
    assert(0 <= cx < coarse_width);
    assert(cy >= 0) by (nonlinear_arith)
        requires
            coarse_index >= 0,
            coarse_width > 0,
            cy == coarse_index / coarse_width,
    ;
    lemma_fundamental_div_mod_converse(f, fw, cy * 2 + dy, cx * 2 + dx);
    assert((cy * 2 + dy) / 2 == cy);
    assert((cx * 2 + dx) / 2 == cx);
    vstd::arithmetic::div_mod::lemma_fundamental_div_mod(coarse_index, coarse_width);
    assert(coarse_width * cy == cy * coarse_width) by (nonlinear_arith);
}

/// Cell `c` of a grid `width` wide is red in the checkerboard colouring: its column plus its row is
/// even.
pub open spec fn is_red(c: u32, width: u32) -> bool {
    (c % width + c / width) % 2 == 0
}

/// Splits a list of cells into its red and its black cells, each in the order of the list.
pub fn split_red_black(cells: &Vec<u32>, width: u32) -> (r: (Vec<u32>, Vec<u32>))
    requires
        width > 0,
    ensures
        r.0@ == red_cells(cells@, width),
        r.1@ == black_cells(cells@, width),
{
    broadcast use vstd::seq_lib::group_filter_ensures;

    let mut red: Vec<u32> = Vec::new();
    let mut black: Vec<u32> = Vec::new();
    let mut k: usize = 0;
    while k < cells.len()
        invariant
            width > 0,
            k <= cells.len(),
            red@ == cells@.take(k as int).filter(|c: u32| is_red(c, width)),
            black@ == cells@.take(k as int).filter(|c: u32| !is_red(c, width)),
        decreases cells.len() - k,
    {
        let cell_index = cells[k];
        let x = cell_index % width;
        let y = cell_index / width;
        proof {
            vstd::arithmetic::div_mod::lemma_fundamental_div_mod(cell_index as int, width as int);
            assert(y <= width * y) by (nonlinear_arith)
                requires
                    width >= 1,
                    y >= 0,
            ;
            assert(cells@.take(k + 1) == cells@.take(k as int).push(cell_index));
            cells@.take(k as int).lemma_filter_push(cell_index, |c: u32| is_red(c, width));
            cells@.take(k as int).lemma_filter_push(cell_index, |c: u32| !is_red(c, width));
        }
        if (x + y) % 2 == 0 {
            red.push(cell_index);
        } else {
            black.push(cell_index);
        }
        k += 1;
    }
    proof {
        assert(cells@.take(cells.len() as int) == cells@);
    }
    (red, black)
}

/// A list of cells padded with copies of its last cell up to a multiple of eight entries.
pub open spec fn pad_to_chunks(s: Seq<u32>) -> Seq<u32> {
    let padded_len = if s.len() % 8 == 0 { s.len() as int } else { s.len() + 8 - s.len() % 8 };
    Seq::new(padded_len as nat, |k: int| if k < s.len() { s[k] } else { s[s.len() - 1] })
}

/// Pads `cells` with copies of its last cell until its length is a multiple of eight.
pub fn pad_cells(cells: &mut Vec<u32>)
    requires
        old(cells).len() + 8 <= usize::MAX,
    ensures
        final(cells)@ == pad_to_chunks(old(cells)@),
{
    let count = cells.len();
    let remainder = count % 8;
    if remainder != 0 {
        let padding = 8 - remainder;
        let last_val = cells[count - 1];
        let mut k: usize = 0;
        while k < padding
            invariant
                count == old(cells).len(),
                remainder == count % 8,
                remainder != 0,
                padding == 8 - remainder,
                k <= padding,
                last_val == old(cells)@[count - 1],
                cells.len() == count + k,
                forall|m: int| 0 <= m < count ==> cells@[m] == old(cells)@[m],
                forall|m: int| count <= m < count + k ==> cells@[m] == last_val,
            decreases padding - k,
        {
            cells.push(last_val);
            k += 1;
        }
    }
    assert(cells@ =~= pad_to_chunks(old(cells)@));
}


/// Neighbouring cells have different checkerboard colours, so the cells of one colour can be
/// relaxed independently of each other.
pub proof fn lemma_checkerboard_neighbours(x: u32, y: u32, width: u32, height: u32)
    requires
        x < width,
        y < height,
        width * height <= u32::MAX,
    ensures
        x + 1 < width ==> is_red((y * width + x) as u32, width) != is_red((y * width + x + 1) as u32, width),
        y + 1 < height ==> is_red((y * width + x) as u32, width) != is_red(
            ((y + 1) * width + x) as u32,
            width,
        ),
{
    lemma_cell_index(width as int, height as int, x as int, y as int);
    if x + 1 < width {
        lemma_cell_index(width as int, height as int, x + 1, y as int);
    }
    if y + 1 < height {
        lemma_cell_index(width as int, height as int, x as int, y + 1);
    }
}

/// The red cells of a list, in the order of the list.
pub open spec fn red_cells(cells: Seq<u32>, width: u32) -> Seq<u32> {
    cells.filter(|c: u32| is_red(c, width))
}

/// The black cells of a list, in the order of the list.
pub open spec fn black_cells(cells: Seq<u32>, width: u32) -> Seq<u32> {
    cells.filter(|c: u32| !is_red(c, width))
}

/// The red list holds exactly the listed cells whose column plus row is even, and the black list
/// exactly those whose column plus row is odd.
pub proof fn lemma_colour_by_parity(cells: Seq<u32>, width: u32, c: u32)
    ensures
        red_cells(cells, width).contains(c) <==> cells.contains(c) && (c % width + c / width) % 2 == 0,
        black_cells(cells, width).contains(c) <==> cells.contains(c) && (c % width + c / width) % 2
            == 1,
{
    broadcast use vstd::seq_lib::group_filter_ensures;

    let red = |c: u32| is_red(c, width);
    let black = |c: u32| !is_red(c, width);
    if red_cells(cells, width).contains(c) {
        cells.lemma_filter_contains_rev(red, c);
    }
    if black_cells(cells, width).contains(c) {
        cells.lemma_filter_contains_rev(black, c);
    }
    if cells.contains(c) {
        let i = choose|i: int| 0 <= i < cells.len() && cells[i] == c;
        if is_red(c, width) {
            assert(red(cells[i]));
            assert(red_cells(cells, width).contains(c));
        } else {
            assert(black(cells[i]));
            assert(black_cells(cells, width).contains(c));
        }
    }
}

/// The red and the black cells of a list split it: each cell of the list is in exactly one of
/// them, and together they are as long as the list.
pub proof fn lemma_red_black_partition(cells: Seq<u32>, width: u32)
    ensures
        red_cells(cells, width).len() + black_cells(cells, width).len() == cells.len(),
        forall|c: u32|
            cells.contains(c) <==> (#[trigger] red_cells(cells, width).contains(c)
                || #[trigger] black_cells(cells, width).contains(c)),
        forall|c: u32|
            !(#[trigger] red_cells(cells, width).contains(c) && #[trigger] black_cells(
                cells,
                width,
            ).contains(c)),
    decreases cells.len(),
{
    broadcast use vstd::seq_lib::group_filter_ensures;
    broadcast use Seq::lemma_filter_contains_rev;

    let red = |c: u32| is_red(c, width);
    let black = |c: u32| !is_red(c, width);
    if cells.len() > 0 {
        let prefix = cells.drop_last();
        let last = cells.last();
        lemma_red_black_partition(prefix, width);
        assert(cells == prefix.push(last));
        prefix.lemma_filter_push(last, red);
        prefix.lemma_filter_push(last, black);
        assert forall|c: u32| cells.contains(c) <==> (#[trigger] red_cells(cells, width).contains(c)
            || #[trigger] black_cells(cells, width).contains(c)) by {
            if red_cells(cells, width).contains(c) {
                cells.lemma_filter_contains_rev(red, c);
            }
            if black_cells(cells, width).contains(c) {
                cells.lemma_filter_contains_rev(black, c);
            }
            if cells.contains(c) {
                if c == last {
                    if is_red(c, width) {
                        assert(cells.filter(red).last() == c);
                        assert(red_cells(cells, width).contains(c));
                    } else {
                        assert(cells.filter(black).last() == c);
                        assert(black_cells(cells, width).contains(c));
                    }
                } else {
                    let k = choose|k: int| 0 <= k < cells.len() && cells[k] == c;
                    assert(prefix[k] == c);
                    assert(prefix.contains(c));
                    if red_cells(prefix, width).contains(c) {
                        let m = choose|m: int|
                            0 <= m < prefix.filter(red).len() && prefix.filter(red)[m] == c;
                        assert(cells.filter(red)[m] == c);
                        assert(red_cells(cells, width).contains(c));
                    } else {
                        assert(black_cells(prefix, width).contains(c));
                        let m = choose|m: int|
                            0 <= m < prefix.filter(black).len() && prefix.filter(black)[m] == c;
                        assert(cells.filter(black)[m] == c);
                        assert(black_cells(cells, width).contains(c));
                    }
                }
            }
        }
        assert forall|c: u32|
            !(#[trigger] red_cells(cells, width).contains(c) && #[trigger] black_cells(
                cells,
                width,
            ).contains(c)) by {
            if red_cells(cells, width).contains(c) && black_cells(cells, width).contains(c) {
                let a = choose|m: int| 0 <= m < cells.filter(red).len() && cells.filter(red)[m] == c;
                let b = choose|m: int|
                    0 <= m < cells.filter(black).len() && cells.filter(black)[m] == c;
                assert(red(cells.filter(red)[a]));
                assert(black(cells.filter(black)[b]));
            }
        }
    } else {
        cells.lemma_filter_len(red);
        cells.lemma_filter_len(black);
        assert(red_cells(cells, width).len() == 0);
        assert(black_cells(cells, width).len() == 0);
    }
}

/// Padding keeps the list as its prefix, reaches a multiple of eight and adds fewer than eight
/// entries, each a copy of the last cell.
pub proof fn lemma_pad_to_chunks(s: Seq<u32>)
    ensures
        pad_to_chunks(s).len() % 8 == 0,
        s.len() <= pad_to_chunks(s).len() < s.len() + 8,
        pad_to_chunks(s).take(s.len() as int) == s,
        forall|k: int|
            s.len() <= k < pad_to_chunks(s).len() ==> #[trigger] pad_to_chunks(s)[k] == s[s.len() - 1],
{
    assert(pad_to_chunks(s).take(s.len() as int) =~= s);
}

} // verus!

use vstd::prelude::*;
use crate::bitset::{cell_flag, read_flag};
use vstd::arithmetic::div_mod::lemma_fundamental_div_mod_converse;
use crate::grid::{dims_fit, in_grid, lemma_cell_index};

verus! {

/// The neighbours of face `index` on a face grid `columns` wide and `rows` high that lie on the
/// grid and whose valid flag is set, in the order left, right, below, above.
pub open spec fn valid_neighbour_list(valid: Seq<bool>, columns: int, rows: int, index: int) -> Seq<usize> {
    let x = index % columns;
    let y = index / columns;
    let left = if x > 0 && valid[index - 1] { seq![(index - 1) as usize] } else { Seq::empty() };
    let right = if x < columns - 1 && valid[index + 1] { seq![(index + 1) as usize] } else { Seq::empty() };
    let below = if y > 0 && valid[index - columns] { seq![(index - columns) as usize] } else { Seq::empty() };
    let above = if y < rows - 1 && valid[index + columns] { seq![(index + columns) as usize] } else { Seq::empty() };
    left + right + below + above
}

/// Face `index` is valid, or one of its neighbours on the grid is.
pub open spec fn reached(valid: Seq<bool>, columns: int, rows: int, index: int) -> bool {
    valid[index] || valid_neighbour_list(valid, columns, rows, index).len() > 0
}

proof fn lemma_face_position(columns: int, rows: int, index: int)
    requires
        columns >= 1,
        rows >= 1,
        0 <= index < columns * rows,
    ensures
        index == (index / columns) * columns + index % columns,
        0 <= index % columns < columns,
        0 <= index / columns < rows,
        index % columns < columns - 1 ==> index + 1 < columns * rows,
        index / columns < rows - 1 ==> index + columns < columns * rows,
        index / columns > 0 ==> index >= columns,
{
    vstd::arithmetic::div_mod::lemma_fundamental_div_mod(index, columns);
    let x = index % columns;
    let y = index / columns;
    assert(index == y * columns + x) by (nonlinear_arith)
        requires
            index == columns * (index / columns) + index % columns,
            x == index % columns,
            y == index / columns,
    ;
    assert(0 <= y < rows) by (nonlinear_arith)
        requires
            index == y * columns + x,
            0 <= index < columns * rows,
            0 <= x < columns,
    ;
    if x < columns - 1 {
        lemma_cell_index(columns, rows, x + 1, y);
    }
    if y < rows - 1 {
        lemma_cell_index(columns, rows, x, y + 1);
        assert((y + 1) * columns + x == index + columns) by (nonlinear_arith)
            requires
                index == y * columns + x,
        ;
    }
    if y > 0 {
        assert(index >= columns) by (nonlinear_arith)
            requires
                index == y * columns + x,
                y >= 1,
                x >= 0,
                columns >= 1,
        ;
    }
}

/// The valid neighbours of one face, from which an invalid face takes the average.
pub fn valid_neighbours(valid: &Vec<bool>, columns: usize, rows: usize, index: usize) -> (r: Vec<usize>)
    requires
        columns >= 1,
        rows >= 1,
        index < columns * rows,
        columns * rows <= valid.len(),
    ensures
        r@ == valid_neighbour_list(valid@, columns as int, rows as int, index as int),
{
    proof {
        lemma_face_position(columns as int, rows as int, index as int);
    }
    let x = index % columns;
    let y = index / columns;
    let mut r: Vec<usize> = Vec::new();
    if x > 0 && valid[index - 1] {
        r.push(index - 1);
    }
    if x < columns - 1 && valid[index + 1] {
        r.push(index + 1);
    }
    if y > 0 && valid[index - columns] {
        r.push(index - columns);
    }
    if y < rows - 1 && valid[index + columns] {
        r.push(index + columns);
    }
    assert(r@ =~= valid_neighbour_list(valid@, columns as int, rows as int, index as int));
    r
}

/// The neighbours listed for face `index` are exactly its valid neighbours on the grid: each of
/// the faces one column to the left or right, or one row below or above, that lies on the grid and
/// whose flag is set is listed; every listed face is such a face (a valid face on the grid at
/// distance one); and each is listed once, so the list is as long as their number.
pub proof fn lemma_valid_neighbours_exact(valid: Seq<bool>, columns: int, rows: int, index: int)
    requires
        columns >= 1,
        rows >= 1,
        columns * rows <= valid.len(),
        columns * rows <= usize::MAX,
        0 <= index < columns * rows,
    ensures
        index % columns > 0 && valid[index - 1] ==> valid_neighbour_list(valid, columns, rows, index).contains(
            (index - 1) as usize,
        ),
        index % columns < columns - 1 && valid[index + 1] ==> valid_neighbour_list(valid, columns, rows, index).contains(
            (index + 1) as usize,
        ),
        index / columns > 0 && valid[index - columns] ==> valid_neighbour_list(valid, columns, rows, index).contains(
            (index - columns) as usize,
        ),
        index / columns < rows - 1 && valid[index + columns] ==> valid_neighbour_list(valid, columns, rows, index).contains(
            (index + columns) as usize,
        ),
        forall|m: int|
            0 <= m < valid_neighbour_list(valid, columns, rows, index).len() ==> {
                let n = #[trigger] valid_neighbour_list(valid, columns, rows, index)[m] as int;
                &&& 0 <= n < columns * rows
                &&& valid[n]
                &&& face_distance(columns, index, n) == 1
            },
        valid_neighbour_list(valid, columns, rows, index).len() == (if index % columns > 0
            && valid[index - 1] {
            1int
        } else {
            0int
        }) + (if index % columns < columns - 1 && valid[index + 1] {
            1int
        } else {
            0int
        }) + (if index / columns > 0 && valid[index - columns] {
            1int
        } else {
            0int
        }) + (if index / columns < rows - 1 && valid[index + columns] {
            1int
        } else {
            0int
        }),
{
    lemma_neighbour_positions(columns, rows, index);
    let l = valid_neighbour_list(valid, columns, rows, index);
    let x = index % columns;
    let y = index / columns;
    let left = if x > 0 && valid[index - 1] { seq![(index - 1) as usize] } else { Seq::<usize>::empty() };
    let right = if x < columns - 1 && valid[index + 1] { seq![(index + 1) as usize] } else { Seq::<usize>::empty() };
    let below = if y > 0 && valid[index - columns] { seq![(index - columns) as usize] } else { Seq::<usize>::empty() };
    let above = if y < rows - 1 && valid[index + columns] { seq![(index + columns) as usize] } else { Seq::<usize>::empty() };
    assert(l == left + right + below + above);
    let lr = left + right;
    let lrb = lr + below;
    if x > 0 && valid[index - 1] {
        assert(l[0] == (index - 1) as usize);
    }
    if x < columns - 1 && valid[index + 1] {
        assert(l[left.len() as int] == (index + 1) as usize);
    }
    if y > 0 && valid[index - columns] {
        assert(l[lr.len() as int] == (index - columns) as usize);
    }
    if y < rows - 1 && valid[index + columns] {
        assert(l[lrb.len() as int] == (index + columns) as usize);
    }
    assert forall|m: int| 0 <= m < l.len() implies {
        let n = #[trigger] l[m] as int;
        &&& 0 <= n < columns * rows
        &&& valid[n]
        &&& face_distance(columns, index, n) == 1
    } by {
        if m < left.len() {
            assert(l[m] == left[m]);
            assert(x > 0 && valid[index - 1] && l[m] as int == index - 1);
        } else if m < lr.len() {
            assert(l[m] == right[m - left.len()]);
            assert(x < columns - 1 && valid[index + 1] && l[m] as int == index + 1);
        } else if m < lrb.len() {
            assert(l[m] == below[m - lr.len()]);
            assert(y > 0 && valid[index - columns] && l[m] as int == index - columns);
        } else {
            assert(l[m] == above[m - lrb.len()]);
            assert(y < rows - 1 && valid[index + columns] && l[m] as int == index + columns);
        }
    }
}

/// One round of extrapolation of the valid flags: a face becomes valid when it was valid or one of
/// its neighbours on the grid was. Faces beyond the grid keep their flag.
pub fn grow_valid(valid: &Vec<bool>, columns: usize, rows: usize) -> (r: Vec<bool>)
    requires
        columns >= 1,
        rows >= 1,
        columns * rows <= valid.len(),
    ensures
        r.len() == valid.len(),
        forall|i: int|
            0 <= i < columns * rows ==> #[trigger] r@[i] == reached(
                valid@,
                columns as int,
                rows as int,
                i,
            ),
        forall|i: int| columns * rows <= i < valid.len() ==> #[trigger] r@[i] == valid@[i],
        r@ == grow_step(valid@, columns as int, rows as int),
{
    let faces = columns * rows;
    let mut r: Vec<bool> = Vec::new();
    let mut index: usize = 0;
    while index < valid.len()
        invariant
            columns >= 1,
            rows >= 1,
            faces == columns * rows,
            faces <= valid.len(),
            index <= valid.len(),
            r.len() == index,
            forall|i: int|
                0 <= i < index && i < faces ==> #[trigger] r@[i] == reached(
                    valid@,
                    columns as int,
                    rows as int,
                    i,
                ),
            forall|i: int| faces <= i < index ==> #[trigger] r@[i] == valid@[i],
        decreases valid.len() - index,
    {
        if index < faces {
            if valid[index] {
                r.push(true);
            } else {
                let neighbours = valid_neighbours(valid, columns, rows, index);
                r.push(neighbours.len() > 0);
            }
        } else {
            r.push(valid[index]);
        }
        index += 1;
    }
    assert(r@ =~= grow_step(valid@, columns as int, rows as int));
    r
}

/// One round of growth on a flag sequence: the faces of the grid become `reached`, the entries
/// beyond it keep their flag.
pub open spec fn grow_step(valid: Seq<bool>, columns: int, rows: int) -> Seq<bool> {
    Seq::new(
        valid.len(),
        |i: int| if i < columns * rows { reached(valid, columns, rows, i) } else { valid[i] },
    )
}

/// The flags after `rounds` rounds of growth.
pub open spec fn grown(valid: Seq<bool>, columns: int, rows: int, rounds: nat) -> Seq<bool>
    decreases rounds,
{
    if rounds == 0 {
        valid
    } else {
        grow_step(grown(valid, columns, rows, (rounds - 1) as nat), columns, rows)
    }
}

/// Manhattan distance between faces `i` and `j` of a face grid `columns` wide.
pub open spec fn face_distance(columns: int, i: int, j: int) -> int {
    let dx = i % columns - j % columns;
    let dy = i / columns - j / columns;
    (if dx < 0 { -dx } else { dx }) + (if dy < 0 { -dy } else { dy })
}

proof fn lemma_grown_len(valid: Seq<bool>, columns: int, rows: int, rounds: nat)
    ensures
        grown(valid, columns, rows, rounds).len() == valid.len(),
    decreases rounds,
{
    if rounds > 0 {
        lemma_grown_len(valid, columns, rows, (rounds - 1) as nat);
    }
}

/// Where the four neighbours of face `i` lie, when they are on the grid.
proof fn lemma_neighbour_positions(columns: int, rows: int, i: int)
    requires
        columns >= 1,
        rows >= 1,
        0 <= i < columns * rows,
    ensures
        0 <= i % columns < columns,
        0 <= i / columns < rows,
        i % columns > 0 ==> (i - 1) % columns == i % columns - 1 && (i - 1) / columns == i / columns
            && 0 <= i - 1,
        i % columns < columns - 1 ==> (i + 1) % columns == i % columns + 1 && (i + 1) / columns
            == i / columns && i + 1 < columns * rows,
        i / columns > 0 ==> (i - columns) % columns == i % columns && (i - columns) / columns == i
            / columns - 1 && 0 <= i - columns,
        i / columns < rows - 1 ==> (i + columns) % columns == i % columns && (i + columns) / columns
            == i / columns + 1 && i + columns < columns * rows,
{
    lemma_face_position(columns, rows, i);
    let x = i % columns;
    let y = i / columns;
    if x > 0 {
        lemma_fundamental_div_mod_converse(i - 1, columns, y, x - 1);
    }
    if x < columns - 1 {
        lemma_fundamental_div_mod_converse(i + 1, columns, y, x + 1);
    }
    if y > 0 {
        assert(i - columns == (y - 1) * columns + x) by (nonlinear_arith)
            requires
                i == y * columns + x,
        ;
        lemma_fundamental_div_mod_converse(i - columns, columns, y - 1, x);
    }
    if y < rows - 1 {
        assert(i + columns == (y + 1) * columns + x) by (nonlinear_arith)
            requires
                i == y * columns + x,
        ;
        lemma_fundamental_div_mod_converse(i + columns, columns, y + 1, x);
    }
}

/// After `rounds` rounds of growth, a face of the grid is valid exactly when some face of the
/// grid within Manhattan distance `rounds` of it was valid at the start: extrapolation reaches
/// `rounds` faces away from the known velocities, and no further.
pub proof fn lemma_grown_within_distance(valid: Seq<bool>, columns: int, rows: int, rounds: nat, i: int)
    requires
        columns >= 1,
        rows >= 1,
        columns * rows <= valid.len(),
        0 <= i < columns * rows,
    ensures
        grown(valid, columns, rows, rounds)[i] <==> exists|j: int|
            0 <= j < columns * rows && valid[j] && #[trigger] face_distance(columns, i, j) <= rounds,
    decreases rounds,
{
    lemma_face_position(columns, rows, i);
    if rounds == 0 {
        if valid[i] {
            assert(face_distance(columns, i, i) <= 0);
        }
        if exists|j: int| 0 <= j < columns * rows && valid[j] && #[trigger] face_distance(columns, i, j) <= 0 {
            let j = choose|j: int| 0 <= j < columns * rows && valid[j] && #[trigger] face_distance(columns, i, j) <= 0;
            lemma_face_position(columns, rows, j);
            assert(j == i);
        }
    } else {
        let k = (rounds - 1) as nat;
        let g = grown(valid, columns, rows, k);
        lemma_grown_len(valid, columns, rows, k);
        lemma_neighbour_positions(columns, rows, i);
        let x = i % columns;
        let y = i / columns;
        let cr = columns * rows;
        assert(grown(valid, columns, rows, rounds)[i] == reached(g, columns, rows, i));
        assert(reached(g, columns, rows, i) <==> (g[i] || (x > 0 && g[i - 1]) || (x < columns - 1
            && g[i + 1]) || (y > 0 && g[i - columns]) || (y < rows - 1 && g[i + columns])));
        if reached(g, columns, rows, i) {
            let n = if g[i] {
                i
            } else if x > 0 && g[i - 1] {
                i - 1
            } else if x < columns - 1 && g[i + 1] {
                i + 1
            } else if y > 0 && g[i - columns] {
                i - columns
            } else {
                i + columns
            };
            assert(g[n] && 0 <= n < cr && face_distance(columns, i, n) <= 1);
            lemma_grown_within_distance(valid, columns, rows, k, n);
            let j = choose|j: int| 0 <= j < cr && valid[j] && #[trigger] face_distance(columns, n, j) <= k;
            lemma_face_position(columns, rows, n);
            lemma_face_position(columns, rows, j);
            assert(face_distance(columns, i, j) <= rounds);
        }
        if exists|j: int| 0 <= j < cr && valid[j] && #[trigger] face_distance(columns, i, j) <= rounds {
            let j = choose|j: int| 0 <= j < cr && valid[j] && #[trigger] face_distance(columns, i, j) <= rounds;
            lemma_face_position(columns, rows, j);
            let n = if face_distance(columns, i, j) <= k {
                i
            } else if j % columns < x {
                i - 1
            } else if j % columns > x {
                i + 1
            } else if j / columns < y {
                i - columns
            } else {
                i + columns
            };
            assert(0 <= n < cr && face_distance(columns, n, j) <= k);
            lemma_grown_within_distance(valid, columns, rows, k, n);
            assert(g[n]);
        }
    }
}

/// The vertical-velocity faces that gravity acts on: face `(x, y)` when the cell below or the
/// cell above it holds fluid. The faces are numbered row by row, `width` per row, `height + 1`
/// rows.
pub fn gravity_faces(fluid: &Vec<u64>, width: u32, height: u32) -> (r: Vec<bool>)
    requires
        dims_fit(width as int, height as int),
        width * height <= 64 * fluid.len(),
    ensures
        r.len() == width * (height + 1),
        forall|x: int, y: int|
            0 <= x < width && 0 <= y <= height ==> #[trigger] r@[y * width + x] == (
            (in_grid(width as int, height as int, x, y - 1) && cell_flag(fluid@, (y - 1) * width + x))
                || (in_grid(width as int, height as int, x, y) && cell_flag(fluid@, y * width + x))),
{
    assert(width * (height + 1) <= (width + 1) * (height + 1)) by (nonlinear_arith);
    assert(height < (width + 1) * (height + 1)) by (nonlinear_arith)
        requires
            width >= 1,
            height >= 1,
    ;
    assert(width * height <= (width + 1) * (height + 1)) by (nonlinear_arith);
    let mut r: Vec<bool> = Vec::new();
    let mut y: u32 = 0;
    while y <= height
        invariant
            dims_fit(width as int, height as int),
            width * height <= 64 * fluid.len(),
            width * (height + 1) <= (width + 1) * (height + 1),
            width * height <= (width + 1) * (height + 1),
            height < 0x7fffffff,
            y <= height + 1,
            r.len() == y * width,
            forall|xx: int, yy: int|
                0 <= xx < width && 0 <= yy < y ==> #[trigger] r@[yy * width + xx] == (
                (in_grid(width as int, height as int, xx, yy - 1) && cell_flag(fluid@, (yy - 1) * width + xx))
                    || (in_grid(width as int, height as int, xx, yy) && cell_flag(fluid@, yy * width + xx))),
        decreases height + 1 - y,
    {
        let mut x: u32 = 0;
        while x < width
            invariant
                dims_fit(width as int, height as int),
                width * height <= 64 * fluid.len(),
                width * (height + 1) <= (width + 1) * (height + 1),
                width * height <= (width + 1) * (height + 1),
                height < 0x7fffffff,
                y <= height,
                x <= width,
                r.len() == y * width + x,
                forall|xx: int, yy: int|
                    0 <= xx < width && 0 <= yy < y ==> #[trigger] r@[yy * width + xx] == (
                    (in_grid(width as int, height as int, xx, yy - 1) && cell_flag(fluid@, (yy - 1) * width + xx))
                        || (in_grid(width as int, height as int, xx, yy) && cell_flag(fluid@, yy * width + xx))),
                forall|xx: int|
                    0 <= xx < x ==> #[trigger] r@[y * width + xx] == (
                    (in_grid(width as int, height as int, xx, y - 1) && cell_flag(fluid@, (y - 1) * width + xx))
                        || (in_grid(width as int, height as int, xx, y as int) && cell_flag(fluid@, y * width + xx))),
            decreases width - x,
        {
            proof {
                lemma_cell_index(width as int, (height + 1) as int, x as int, y as int);
            }
            let is_bottom_fluid = if y > 0 {
                proof {
                    lemma_cell_index(width as int, height as int, x as int, y - 1);
                }
                read_flag(fluid, ((y - 1) * width + x) as usize) == 1
            } else {
                false
            };
            let is_top_fluid = if y < height {
                proof {
                    lemma_cell_index(width as int, height as int, x as int, y as int);
                }
                read_flag(fluid, (y * width + x) as usize) == 1
            } else {
                false
            };
            let ghost before = r@;
            r.push(is_bottom_fluid || is_top_fluid);
            proof {
                assert(width * y == y * width) by (nonlinear_arith);
                assert forall|xx: int, yy: int|
                    0 <= xx < width && 0 <= yy < y implies #[trigger] r@[yy * width + xx] == (
                    (in_grid(width as int, height as int, xx, yy - 1) && cell_flag(fluid@, (yy - 1) * width + xx))
                        || (in_grid(width as int, height as int, xx, yy) && cell_flag(fluid@, yy * width + xx))) by {
                    lemma_cell_index(width as int, y as int, xx, yy);
                    assert(r@[yy * width + xx] == before[yy * width + xx]);
                }
                assert forall|xx: int|
                    0 <= xx < x + 1 implies #[trigger] r@[y * width + xx] == (
                    (in_grid(width as int, height as int, xx, y - 1) && cell_flag(fluid@, (y - 1) * width + xx))
                        || (in_grid(width as int, height as int, xx, y as int) && cell_flag(fluid@, y * width + xx))) by {
                    if xx < x {
                        assert(r@[y * width + xx] == before[y * width + xx]);
                    }
                }
            }
            x += 1;
        }
        proof {
            assert((y + 1) * width == y * width + width) by (nonlinear_arith);
        }
        y += 1;
    }
    proof {
        assert((height + 1) * width == width * (height + 1)) by (nonlinear_arith);
    }
    r
}

/// How the pressure gradient updates a velocity face, from the two cells on either side of it.
#[derive(Copy, Clone, Debug, PartialEq, Eq, Structural)]
pub enum FaceKind {
    /// One side is wall and the other is not: the velocity is set to zero.
    Wall,
    /// Both sides hold fluid: the plain pressure difference applies.
    BothFluid,
    /// Only the first side holds fluid: the free surface lies on the second side.
    FirstFluid,
    /// Only the second side holds fluid: the free surface lies on the first side.
    SecondFluid,
    /// Neither side holds fluid: the pressure difference is zero.
    NoFluid,
}

/// Classifies a face from the wall and fluid flags (1 or 0) of the cells on either side of it.
pub fn face_kind(first_obstacle: u64, second_obstacle: u64, first_fluid: u64, second_fluid: u64) -> (r: FaceKind)
    ensures
        r == (if (first_obstacle == 1) != (second_obstacle == 1) {
            FaceKind::Wall
        } else if first_fluid == 1 && second_fluid == 1 {
            FaceKind::BothFluid
        } else if first_fluid == 1 {
            FaceKind::FirstFluid
        } else if second_fluid == 1 {
            FaceKind::SecondFluid
        } else {
            FaceKind::NoFluid
        }),
{
    if (first_obstacle == 1) != (second_obstacle == 1) {
        FaceKind::Wall
    } else if first_fluid == 1 && second_fluid == 1 {
        FaceKind::BothFluid
    } else if first_fluid == 1 {
        FaceKind::FirstFluid
    } else if second_fluid == 1 {
        FaceKind::SecondFluid
    } else {
        FaceKind::NoFluid
    }
}

} // verus!

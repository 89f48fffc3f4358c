//! Cells of a rectangular grid, addressed by (row, column) or by row-major index.
use vstd::prelude::*;
use crate::bits::{bit_set_items, empty_set, set_insert};

verus! {

/// A cell address: (row, column).
pub type Coordinate = (usize, usize);

/// The row-major index of the cell at `r`, `c` on a grid `columns` wide.
pub open spec fn index_of(r: int, c: int, columns: int) -> int {
    r * columns + c
}

/// Whether cell (`r2`, `c2`) lies on the grid and at Chebyshev distance one from (`r`, `c`).
pub open spec fn is_neighbor(r: int, c: int, r2: int, c2: int, rows: int, columns: int) -> bool {
    &&& 0 <= r2 < rows
    &&& 0 <= c2 < columns
    &&& r - 1 <= r2 <= r + 1
    &&& c - 1 <= c2 <= c + 1
    &&& (r2 != r || c2 != c)
}

/// The indices of the up to eight cells that touch (`r`, `c`), with no wraparound.
pub open spec fn neighbors(r: int, c: int, rows: int, columns: int) -> Set<usize> {
    Set::new(
        |j: usize|
            0 <= j < rows * columns && is_neighbor(
                r,
                c,
                j as int / columns,
                j as int % columns,
                rows,
                columns,
            ),
    )
}

/// The row-major index of a coordinate.
pub fn index_from_coord(coord: Coordinate, columns: usize) -> (r: usize)
    requires
        coord.0 * columns + coord.1 <= usize::MAX,
    ensures
        r == index_of(coord.0 as int, coord.1 as int, columns as int),
{
    let (r, c) = coord;
    r * columns + c
}

/// The coordinate of a row-major index.
pub fn coord_from_index(index: usize, columns: usize) -> (r: Coordinate)
    requires
        columns > 0,
    ensures
        r.0 == index / columns,
        r.1 == index % columns,
        index_of(r.0 as int, r.1 as int, columns as int) == index,
{
    proof {
        vstd::arithmetic::div_mod::lemma_fundamental_div_mod(index as int, columns as int);
        vstd::arithmetic::mul::lemma_mul_is_commutative(columns as int, index as int / columns as int);
    }
    (index / columns, index % columns)
}

/// A step of zero or one along an axis.
#[derive(Debug, Copy, Clone, PartialEq, Eq)]
pub enum Increment {
    One,
    NegOne,
    Zero,
}

/// The value reached from `value` by a step: `NegOne` stops at zero.
pub open spec fn offset_of(incr: Increment, value: int) -> int {
    match incr {
        Increment::One => value + 1,
        Increment::NegOne => if value > 0 { value - 1 } else { 0 },
        Increment::Zero => value,
    }
}

impl Increment {
    /// The value reached from `value` by this step.
    pub fn offset(&self, value: usize) -> (r: usize)
        requires
            *self == Increment::One ==> value < usize::MAX,
        ensures
            r == offset_of(*self, value as int),
    {
        match *self {
            Increment::One => value + 1,
            Increment::NegOne => value.saturating_sub(1),
            Increment::Zero => value,
        }
    }
}

/// The steps that `adjacent` combines, in the order it takes them.
pub open spec fn increment_at(k: int) -> Increment {
    if k == 0 {
        Increment::One
    } else if k == 1 {
        Increment::NegOne
    } else {
        Increment::Zero
    }
}

/// Whether the step pair (`a`, `b`) from (`r`, `c`) lands on another cell of the grid.
pub open spec fn step_lands(r: int, c: int, a: int, b: int, rows: int, columns: int) -> bool {
    let r2 = offset_of(increment_at(a), r);
    let c2 = offset_of(increment_at(b), c);
    (r2 != r || c2 != c) && r2 < rows && c2 < columns
}

/// The index that the step pair (`a`, `b`) from (`r`, `c`) lands on.
pub open spec fn step_target(r: int, c: int, a: int, b: int, columns: int) -> int {
    index_of(offset_of(increment_at(a), r), offset_of(increment_at(b), c), columns)
}

pub proof fn lemma_index_in_grid(r: int, c: int, rows: int, columns: int)
    requires
        0 <= r < rows,
        0 <= c < columns,
    ensures
        0 <= index_of(r, c, columns) < rows * columns,
        index_of(r, c, columns) / columns == r,
        index_of(r, c, columns) % columns == c,
{
    assert(0 <= r * columns + c < rows * columns) by (nonlinear_arith)
        requires
            0 <= r < rows,
            0 <= c < columns,
    ;
    vstd::arithmetic::mul::lemma_mul_is_commutative(r, columns);
    vstd::arithmetic::div_mod::lemma_fundamental_div_mod_converse(
        r * columns + c,
        columns,
        r,
        c,
    );
}

/// An index below `rows * columns` decodes to a coordinate on the grid.
pub proof fn lemma_coord_in_grid(i: int, rows: int, columns: int)
    requires
        0 <= i < rows * columns,
        columns > 0,
    ensures
        0 <= i / columns < rows,
        0 <= i % columns < columns,
        index_of(i / columns, i % columns, columns) == i,
{
    vstd::arithmetic::div_mod::lemma_fundamental_div_mod(i, columns);
    vstd::arithmetic::mul::lemma_mul_is_commutative(columns, i / columns);
    vstd::arithmetic::div_mod::lemma_div_pos_is_pos(i, columns);
    if i / columns >= rows {
        assert(columns * (i / columns) >= columns * rows) by (nonlinear_arith)
            requires
                i / columns >= rows,
                columns > 0,
        ;
        vstd::arithmetic::mul::lemma_mul_is_commutative(columns, rows);
    }
}

/// The indices of the cells that touch `coord`, at most eight of them.
pub fn adjacent(coord: Coordinate, rows: usize, columns: usize) -> (r: bit_set::BitSet)
    requires
        coord.0 < rows,
        coord.1 < columns,
        rows * columns <= usize::MAX,
    ensures
        bit_set_items(r) == neighbors(coord.0 as int, coord.1 as int, rows as int, columns as int),
        bit_set_items(r).finite(),
        bit_set_items(r).len() <= 8,
{
    let increments: [Increment; 3] = [Increment::One, Increment::NegOne, Increment::Zero];
    let (row, column) = coord;
    let ghost nb = neighbors(row as int, column as int, rows as int, columns as int);
    let mut set = empty_set();
    let mut k: usize = 0;
    while k < 9
        invariant
            increments@ == seq![Increment::One, Increment::NegOne, Increment::Zero],
            k <= 9,
            row < rows,
            column < columns,
            rows * columns <= usize::MAX,
            nb == neighbors(row as int, column as int, rows as int, columns as int),
            bit_set_items(set).finite(),
            bit_set_items(set).len() <= if k < 8 { k as int } else { 8 },
            bit_set_items(set).subset_of(nb),
            forall|a: int, b: int|
                0 <= a < 3 && 0 <= b < 3 && 3 * a + b < k && step_lands(
                    row as int,
                    column as int,
                    a,
                    b,
                    rows as int,
                    columns as int,
                ) ==> #[trigger] bit_set_items(set).contains(
                    step_target(row as int, column as int, a, b, columns as int) as usize,
                ),
        decreases 9 - k,
    {
        let row_incr = increments[k / 3];
        let column_incr = increments[k % 3];
        assert(row_incr == increment_at(k as int / 3) && column_incr == increment_at(k as int % 3));
        let row_offset = row_incr.offset(row);
        let column_offset = column_incr.offset(column);
        if (row_offset != row || column_offset != column) && row_offset < rows && column_offset
            < columns {
            proof {
                lemma_index_in_grid(
                    row_offset as int,
                    column_offset as int,
                    rows as int,
                    columns as int,
                );
            }
            let index = index_from_coord((row_offset, column_offset), columns);
            set_insert(&mut set, index);
        }
        k = k + 1;
    }
    proof {
        assert forall|j: usize| nb.contains(j) implies bit_set_items(set).contains(j) by {
            let r2 = j as int / columns as int;
            let c2 = j as int % columns as int;
            vstd::arithmetic::div_mod::lemma_fundamental_div_mod(j as int, columns as int);
            vstd::arithmetic::mul::lemma_mul_is_commutative(columns as int, r2);
            let a: int = if r2 == row + 1 { 0 } else if r2 == row - 1 { 1 } else { 2 };
            let b: int = if c2 == column + 1 { 0 } else if c2 == column - 1 { 1 } else { 2 };
            assert(step_lands(row as int, column as int, a, b, rows as int, columns as int));
            assert(step_target(row as int, column as int, a, b, columns as int) == j);
            assert(bit_set_items(set).contains(
                step_target(row as int, column as int, a, b, columns as int) as usize,
            ));
        }
        assert(bit_set_items(set) =~= nb);
    }
    set
}

} // verus!

use vstd::prelude::*;

verus! {

/// `columns` is the smallest number whose square is at least `count`: the number of columns of
/// a square grid that holds `count` cells.
pub open spec fn is_square_side(count: int, columns: int) -> bool {
    &&& columns >= 0
    &&& columns * columns >= count
    &&& columns == 0 || (columns - 1) * (columns - 1) < count
}

/// The number of columns of a near-square grid holding `count` cells: the smallest number whose
/// square is at least `count`.
pub fn grid_columns(count: usize) -> (columns: usize)
    ensures
        is_square_side(count as int, columns as int),
{
    let target = count as u128;
    let mut columns: u128 = 0;
    while columns * columns < target
        invariant
            target == count,
            columns * columns <= target + 2 * columns,
            columns == 0 || (columns - 1) * (columns - 1) < target,
            columns <= target,
        decreases target - columns,
    {
        assert((columns + 1) * (columns + 1) == columns * columns + 2 * columns + 1) by (nonlinear_arith);
        assert(columns * columns < target ==> columns < target) by (nonlinear_arith)
            requires columns * columns < target, columns <= target;
        columns = columns + 1;
    }
    assert(columns <= count);
    columns as usize
}

/// The row and column of cell `index` in a grid filled row by row, `columns` cells a row.
pub fn grid_cell(index: usize, columns: usize) -> (cell: (usize, usize))
    requires
        columns > 0,
    ensures
        cell.0 == index / columns,
        cell.1 == index % columns,
        cell.0 * columns + cell.1 == index,
{
    assert((index / columns) * columns + index % columns == index) by (nonlinear_arith)
        requires columns > 0;
    (index / columns, index % columns)
}

/// Cells of a square grid big enough for `count` items: distinct items get distinct cells,
/// and every cell lies inside the grid.
pub proof fn lemma_grid_cells_fit(count: int, columns: int, i: int, j: int)
    requires
        is_square_side(count, columns),
        0 <= i < count,
        0 <= j < count,
    ensures
        columns > 0,
        i / columns < columns,
        i % columns < columns,
        i != j ==> (i / columns != j / columns || i % columns != j % columns),
{
    assert(columns > 0) by (nonlinear_arith)
        requires columns >= 0, columns * columns >= count, count > 0;
    assert(i / columns < columns) by (nonlinear_arith)
        requires columns > 0, columns * columns >= count, 0 <= i < count;
    if i != j && i / columns == j / columns && i % columns == j % columns {
        assert(i == columns * (i / columns) + i % columns) by (nonlinear_arith) requires columns > 0;
        assert(j == columns * (j / columns) + j % columns) by (nonlinear_arith) requires columns > 0;
    }
}

} // verus!

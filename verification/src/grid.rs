//! Integer geometry of the chunk grid: how an extent is cut into chunks, which
//! chunk holds a coordinate, which chunks touch each other, and the squared
//! distances the sampler compares.

use vstd::arithmetic::div_mod::lemma_fundamental_div_mod;
use vstd::arithmetic::div_mod::lemma_fundamental_div_mod_converse;
use vstd::math::min;
use vstd::prelude::*;
use vstd::seq_lib::lemma_seq_contains_after_push;

verus! {

/// Side length of one square chunk, in coordinate units.
pub const CHUNK_SIZE: u16 = 32;

/// Number of chunks needed to cover `extent` units: the ceiling of
/// `extent / CHUNK_SIZE`.
pub open spec fn chunks_across(extent: nat) -> nat {
    ((extent + CHUNK_SIZE - 1) / (CHUNK_SIZE as int)) as nat
}

/// Coordinate of the middle of the chunk with the given column or row number.
pub open spec fn chunk_center(ordinal: nat) -> nat {
    (CHUNK_SIZE / 2 + ordinal * CHUNK_SIZE) as nat
}

/// Flattened index of the chunk that holds `(x, y)` in a grid with `columns`
/// chunks per row.
pub open spec fn chunk_of(columns: nat, x: nat, y: nat) -> nat {
    (x / (CHUNK_SIZE as nat)) + (y / (CHUNK_SIZE as nat)) * columns
}

/// Column of a flattened chunk index.
pub open spec fn column_of(columns: nat, cell: int) -> int {
    cell % (columns as int)
}

/// Row of a flattened chunk index.
pub open spec fn row_of(columns: nat, cell: int) -> int {
    cell / (columns as int)
}

/// Whether `cell` names a chunk of a `columns` by `rows` grid.
pub open spec fn in_grid(columns: nat, rows: nat, cell: int) -> bool {
    0 <= cell < columns * rows
}

/// Whether two chunks of the grid are the same or touch along a side or at a
/// corner.
pub open spec fn adjacent(columns: nat, rows: nat, a: int, b: int) -> bool {
    &&& in_grid(columns, rows, a)
    &&& in_grid(columns, rows, b)
    &&& -1 <= column_of(columns, b) - column_of(columns, a) <= 1
    &&& -1 <= row_of(columns, b) - row_of(columns, a) <= 1
}

/// Place of `b` in the row-major scan of the three by three block of chunks
/// centred on `a`: 0 for the upper left corner, 4 for `a` itself, 8 for the
/// lower right corner.
pub open spec fn scan_position(columns: nat, a: int, b: int) -> int {
    3 * (row_of(columns, b) - row_of(columns, a) + 1) + (column_of(columns, b) - column_of(
        columns,
        a,
    ) + 1)
}

/// Whether `cells` lists, in ascending order and each once, exactly the
/// chunks of the grid that are `cell` itself or touch it.
pub open spec fn is_neighborhood(columns: nat, rows: nat, cell: int, cells: Seq<usize>) -> bool {
    &&& forall|i: int, j: int| 0 <= i < j < cells.len() ==> cells[i] < cells[j]
    &&& forall|c: usize| cells.contains(c) <==> adjacent(columns, rows, cell, c as int)
}

/// Whether `cells` lists, in ascending order and each once, exactly those
/// chunks around `cell` that the row-major scan meets before place `k`.
pub open spec fn scan_contains(
    columns: nat,
    rows: nat,
    cell: int,
    cells: Seq<usize>,
    k: int,
) -> bool {
    &&& forall|i: int, j: int| 0 <= i < j < cells.len() ==> cells[i] < cells[j]
    &&& forall|c: usize|
        cells.contains(c) <==> (adjacent(columns, rows, cell, c as int) && scan_position(
            columns,
            cell,
            c as int,
        ) < k)
}

/// Squared Euclidean distance between two points.
pub open spec fn sq_dist(ax: int, ay: int, bx: int, by: int) -> int {
    (ax - bx) * (ax - bx) + (ay - by) * (ay - by)
}

/// Score of a point against the boundary of a `width` by `height` area: on
/// each axis the distance to the nearer of the two sides, squared, and then
/// the smaller of the two squares.
pub open spec fn edge_score(width: int, height: int, x: int, y: int) -> int {
    let x_dist = min(x, width - x);
    let y_dist = min(y, height - y);
    min(x_dist * x_dist, y_dist * y_dist)
}

/// Computes `chunks_across` of a coordinate without leaving the range of
/// `u16`.
pub fn chunk_span(extent: u16) -> (n: usize)
    ensures
        n == chunks_across(extent as nat),
{
    let whole: u16 = extent / CHUNK_SIZE;
    if extent % CHUNK_SIZE == 0 {
        whole as usize
    } else {
        (whole + 1) as usize
    }
}

/// `chunks_across` is the least number of chunks whose total length reaches
/// `extent`.
pub proof fn lemma_chunks_across_is_ceiling(extent: nat)
    ensures
        chunks_across(extent) * CHUNK_SIZE >= extent,
        extent > 0 ==> (chunks_across(extent) - 1) * CHUNK_SIZE < extent,
        extent == 0 ==> chunks_across(extent) == 0,
{
}

/// The chunk in column `column` and row `row` has the flattened index
/// `column + row * columns`, and that index gives the column and the row back.
pub proof fn lemma_cell_coordinates(columns: nat, column: int, row: int)
    requires
        0 <= column < columns,
        0 <= row,
    ensures
        column_of(columns, column + row * columns) == column,
        row_of(columns, column + row * columns) == row,
        0 <= column + row * columns,
{
    lemma_fundamental_div_mod_converse(column + row * columns, columns as int, row, column);
    assert(0 <= row * columns) by (nonlinear_arith)
        requires
            0 <= row,
            0 <= columns,
    ;
}

/// Every chunk of the grid lies in a column below `columns` and a row below
/// `rows`, and is rebuilt from the two.
pub proof fn lemma_cell_in_grid(columns: nat, rows: nat, cell: int)
    requires
        in_grid(columns, rows, cell),
    ensures
        0 <= column_of(columns, cell) < columns,
        0 <= row_of(columns, cell) < rows,
        cell == column_of(columns, cell) + row_of(columns, cell) * columns,
{
    let d = columns as int;
    assert(d > 0) by (nonlinear_arith)
        requires
            0 <= cell < d * rows,
            d >= 0,
            rows >= 0,
    ;
    lemma_fundamental_div_mod(cell, d);
    let q = cell / d;
    let r = cell % d;
    assert(d * q == q * d) by (nonlinear_arith);
    assert(0 <= q < rows) by (nonlinear_arith)
        requires
            cell == q * d + r,
            0 <= r < d,
            0 <= cell < d * rows,
    ;
}

/// A chunk built from a column below `columns` and a row below `rows` lies
/// in the grid.
pub proof fn lemma_coordinates_in_grid(columns: nat, rows: nat, column: int, row: int)
    requires
        0 <= column < columns,
        0 <= row < rows,
    ensures
        in_grid(columns, rows, column + row * columns),
{
    assert(0 <= column + row * columns < columns * rows) by (nonlinear_arith)
        requires
            0 <= column < columns,
            0 <= row < rows,
    ;
}

/// A point inside a `width` by `height` area falls into a chunk of the grid
/// that covers the area, in column `x / CHUNK_SIZE` and row `y / CHUNK_SIZE`.
pub proof fn lemma_chunk_of_in_grid(width: nat, height: nat, x: nat, y: nat)
    requires
        x < width,
        y < height,
    ensures
        in_grid(
            chunks_across(width),
            chunks_across(height),
            chunk_of(chunks_across(width), x, y) as int,
        ),
        column_of(chunks_across(width), chunk_of(chunks_across(width), x, y) as int) == x / (
        CHUNK_SIZE as nat),
        row_of(chunks_across(width), chunk_of(chunks_across(width), x, y) as int) == y / (
        CHUNK_SIZE as nat),
{
    let columns = chunks_across(width);
    let rows = chunks_across(height);
    let column = (x / (CHUNK_SIZE as nat)) as int;
    let row = (y / (CHUNK_SIZE as nat)) as int;
    lemma_cell_coordinates(columns, column, row);
    lemma_coordinates_in_grid(columns, rows, column, row);
}

/// Within the grid, a chunk that comes earlier in row-major order has the
/// smaller flattened index.
pub proof fn lemma_row_major_order(columns: nat, rows: nat, a: int, b: int)
    requires
        in_grid(columns, rows, a),
        in_grid(columns, rows, b),
        row_of(columns, a) < row_of(columns, b) || (row_of(columns, a) == row_of(columns, b)
            && column_of(columns, a) < column_of(columns, b)),
    ensures
        a < b,
{
    lemma_cell_in_grid(columns, rows, a);
    lemma_cell_in_grid(columns, rows, b);
    let ra = row_of(columns, a);
    let rb = row_of(columns, b);
    if ra < rb {
        assert((ra + 1) * columns <= rb * columns) by (nonlinear_arith)
            requires
                ra + 1 <= rb,
                0 <= columns,
        ;
        assert((ra + 1) * columns == ra * columns + columns) by (nonlinear_arith);
    }
}

/// One step of the row-major scan around `cell`: place `k` is the chunk one
/// column and one row up from `cell`, moved `k % 3` columns right and `k / 3`
/// rows down. Where that chunk lies in the grid it is the next one to list,
/// and where it does not, place `k` adds nothing.
pub proof fn lemma_neighborhood_scan(
    columns: nat,
    rows: nat,
    cell: int,
    before: Seq<usize>,
    k: int,
    found: Option<usize>,
)
    requires
        in_grid(columns, rows, cell),
        columns * rows <= usize::MAX,
        0 <= k < 9,
        scan_contains(columns, rows, cell, before, k),
        ({
            let column = column_of(columns, cell) + k % 3 - 1;
            let row = row_of(columns, cell) + k / 3 - 1;
            if 0 <= column < columns && 0 <= row < rows {
                found == Some((column + row * columns) as usize)
            } else {
                found is None
            }
        }),
    ensures
        scan_contains(
            columns,
            rows,
            cell,
            match found {
                Some(next) => before.push(next),
                None => before,
            },
            k + 1,
        ),
{
    let column = column_of(columns, cell) + k % 3 - 1;
    let row = row_of(columns, cell) + k / 3 - 1;
    lemma_cell_in_grid(columns, rows, cell);
    match found {
        Some(next) => {
            let after = before.push(next);
            lemma_cell_coordinates(columns, column, row);
            lemma_coordinates_in_grid(columns, rows, column, row);
            assert forall|i: int, j: int| 0 <= i < j < after.len() implies after[i] < after[j] by {
                if j == before.len() {
                    assert(before.contains(before[i]));
                    lemma_row_major_order(columns, rows, before[i] as int, next as int);
                }
            }
            assert forall|c: usize|
                after.contains(c) <==> (adjacent(columns, rows, cell, c as int) && scan_position(
                    columns,
                    cell,
                    c as int,
                ) < k + 1) by {
                lemma_seq_contains_after_push(before, next, c);
                if adjacent(columns, rows, cell, c as int) {
                    lemma_cell_in_grid(columns, rows, c as int);
                }
            }
        },
        None => {
            assert forall|c: usize|
                before.contains(c) <==> (adjacent(columns, rows, cell, c as int) && scan_position(
                    columns,
                    cell,
                    c as int,
                ) < k + 1) by {
                if adjacent(columns, rows, cell, c as int) {
                    lemma_cell_in_grid(columns, rows, c as int);
                }
            }
        },
    }
}

/// A list is fixed by being the neighbourhood of a chunk: two lists that
/// both are, are the same list.
pub proof fn lemma_neighborhood_unique(
    columns: nat,
    rows: nat,
    cell: int,
    a: Seq<usize>,
    b: Seq<usize>,
)
    requires
        is_neighborhood(columns, rows, cell, a),
        is_neighborhood(columns, rows, cell, b),
    ensures
        a == b,
{
    lemma_same_ascending(a, b);
}

/// Two ascending lists with the same elements are the same list.
pub proof fn lemma_same_ascending(a: Seq<usize>, b: Seq<usize>)
    requires
        forall|i: int, j: int| 0 <= i < j < a.len() ==> a[i] < a[j],
        forall|i: int, j: int| 0 <= i < j < b.len() ==> b[i] < b[j],
        forall|c: usize| a.contains(c) <==> b.contains(c),
    ensures
        a == b,
    decreases a.len(),
{
    if a.len() == 0 {
        if b.len() > 0 {
            assert(b.contains(b[0]));
        }
        assert(a =~= b);
    } else {
        let last = a.last();
        assert(a.contains(last));
        let at = choose|i: int| 0 <= i < b.len() && b[i] == last;
        if at != b.len() - 1 {
            let more = b.last();
            assert(b.contains(more));
            let back = choose|i: int| 0 <= i < a.len() && a[i] == more;
            assert(a[back] <= last);
        }
        let a_rest = a.drop_last();
        let b_rest = b.drop_last();
        assert forall|c: usize| a_rest.contains(c) <==> b_rest.contains(c) by {
            if a_rest.contains(c) {
                let i = choose|i: int| 0 <= i < a_rest.len() && a_rest[i] == c;
                assert(a[i] == c && a.contains(c) && c < last);
                let j = choose|j: int| 0 <= j < b.len() && b[j] == c;
                assert(b_rest[j] == c);
            }
            if b_rest.contains(c) {
                let i = choose|i: int| 0 <= i < b_rest.len() && b_rest[i] == c;
                assert(b[i] == c && b.contains(c) && c < last);
                let j = choose|j: int| 0 <= j < a.len() && a[j] == c;
                assert(a_rest[j] == c);
            }
        }
        lemma_same_ascending(a_rest, b_rest);
        assert(a =~= a_rest.push(last));
        assert(b =~= b_rest.push(last));
    }
}

/// On the boundary of the area the boundary score is zero: the nearer side
/// on that axis is at distance zero.
pub proof fn lemma_edge_score_on_boundary(width: int, height: int, x: int, y: int)
    requires
        0 <= x <= width,
        0 <= y <= height,
        x == 0 || x == width || y == 0 || y == height,
    ensures
        edge_score(width, height, x, y) == 0,
{
    let x_dist = min(x, width - x);
    let y_dist = min(y, height - y);
    assert(x_dist * x_dist >= 0) by (nonlinear_arith);
    assert(y_dist * y_dist >= 0) by (nonlinear_arith);
    assert(x_dist == 0 ==> x_dist * x_dist == 0) by (nonlinear_arith);
    assert(y_dist == 0 ==> y_dist * y_dist == 0) by (nonlinear_arith);
}

/// Inside the closed area the boundary score is the square of the distance
/// to the nearest of the four sides.
pub proof fn lemma_edge_score_is_nearest_side(width: int, height: int, x: int, y: int)
    requires
        0 <= x <= width,
        0 <= y <= height,
    ensures
        ({
            let nearest = min(min(x, width - x), min(y, height - y));
            edge_score(width, height, x, y) == nearest * nearest
        }),
        0 <= edge_score(width, height, x, y),
{
    let x_dist = min(x, width - x);
    let y_dist = min(y, height - y);
    assert(x_dist <= y_dist ==> x_dist * x_dist <= y_dist * y_dist) by (nonlinear_arith)
        requires
            0 <= x_dist,
            0 <= y_dist,
    ;
    assert(y_dist <= x_dist ==> y_dist * y_dist <= x_dist * x_dist) by (nonlinear_arith)
        requires
            0 <= x_dist,
            0 <= y_dist,
    ;
    assert(x_dist * x_dist >= 0) by (nonlinear_arith);
    assert(y_dist * y_dist >= 0) by (nonlinear_arith);
}

} // verus!

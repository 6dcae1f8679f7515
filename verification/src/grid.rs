//! Grids of cells and the operations that every tiling strategy shares:
//! filling and repeating patterns, stacking rows, mirroring, turning a grid
//! by way of a flat transpose, counting occupied cells and rendering text.

use vstd::prelude::*;

verus! {

/// An occupied cell of a visual grid.
pub const OCCUPIED: u8 = 88;

/// An empty cell of a visual grid.
pub const EMPTY: u8 = 46;

/// Carriage return, the first byte of a line break.
pub const CR: u8 = 13;

/// Line feed, the second byte of a line break.
pub const LF: u8 = 10;

/// The cells of a grid as a sequence of rows.
pub open spec fn cells(rows: Vec<Vec<u8>>) -> Seq<Seq<u8>> {
    Seq::new(rows@.len(), |i: int| rows@[i]@)
}

/// A grid is rectangular when it has `height` rows of `width` cells each.
pub open spec fn is_rect(rows: Seq<Seq<u8>>, width: nat, height: nat) -> bool {
    &&& rows.len() == height
    &&& forall|i: int| 0 <= i < rows.len() ==> (#[trigger] rows[i]).len() == width
}

/// A row of `n` copies of one cell.
pub open spec fn filled(cell: u8, n: nat) -> Seq<u8> {
    Seq::new(n, |i: int| cell)
}

/// A pattern written `n` times in a row.
pub open spec fn repeated(pattern: Seq<u8>, n: nat) -> Seq<u8>
    decreases n,
{
    if n == 0 {
        Seq::empty()
    } else {
        repeated(pattern, (n - 1) as nat) + pattern
    }
}

/// A block of rows stacked `n` times.
pub open spec fn copies(block: Seq<Seq<u8>>, n: nat) -> Seq<Seq<u8>>
    decreases n,
{
    if n == 0 {
        Seq::empty()
    } else {
        copies(block, (n - 1) as nat) + block
    }
}

/// A row read from its last cell to its first.
pub open spec fn reversed(row: Seq<u8>) -> Seq<u8> {
    Seq::new(row.len(), |i: int| row[row.len() - 1 - i])
}

/// The mirror image of a block: rows in reverse order, each row reversed.
pub open spec fn mirrored(rows: Seq<Seq<u8>>) -> Seq<Seq<u8>> {
    Seq::new(rows.len(), |i: int| reversed(rows[rows.len() - 1 - i]))
}

/// The position of a cell in the row-major flat form of a grid.
pub open spec fn cell_index(row: int, col: int, width: int) -> int {
    row * width + col
}

/// A `height` by `width` grid turned into a `width` by `height` one: row `x`
/// of the result is column `x` of the input, read from the bottom row up.
pub open spec fn turned(rows: Seq<Seq<u8>>, width: nat, height: nat) -> Seq<Seq<u8>> {
    Seq::new(width, |x: int| Seq::new(height, |y: int| rows[height - 1 - y][x]))
}

/// The plain transpose of a `height` by `width` grid.
pub open spec fn transposed(rows: Seq<Seq<u8>>, width: nat, height: nat) -> Seq<Seq<u8>> {
    Seq::new(width, |x: int| Seq::new(height, |y: int| rows[y][x]))
}

/// A grid with each row reversed.
pub open spec fn flipped(rows: Seq<Seq<u8>>) -> Seq<Seq<u8>> {
    Seq::new(rows.len(), |i: int| reversed(rows[i]))
}

/// The number of occupied cells in a row.
pub open spec fn occupied_in_row(row: Seq<u8>) -> nat
    decreases row.len(),
{
    if row.len() == 0 {
        0
    } else {
        occupied_in_row(row.drop_last()) + if row.last() == OCCUPIED { 1nat } else { 0nat }
    }
}

/// The number of occupied cells in a grid.
pub open spec fn occupied(rows: Seq<Seq<u8>>) -> nat
    decreases rows.len(),
{
    if rows.len() == 0 {
        0
    } else {
        occupied(rows.drop_last()) + occupied_in_row(rows.last())
    }
}

/// Rows written one after another with a separator between neighbours.
pub open spec fn joined(rows: Seq<Seq<u8>>, sep: Seq<u8>) -> Seq<u8>
    decreases rows.len(),
{
    if rows.len() == 0 {
        Seq::empty()
    } else if rows.len() == 1 {
        rows[0]
    } else {
        joined(rows.drop_last(), sep) + sep + rows.last()
    }
}

/// The line break that separates the rows of a rendered grid.
pub open spec fn line_break() -> Seq<u8> {
    seq![CR, LF]
}

/// Builds a row of `n` copies of `cell`.
pub fn fill(cell: u8, n: usize) -> (row: Vec<u8>)
    ensures
        row@ == filled(cell, n as nat),
{
    let mut row: Vec<u8> = Vec::new();
    let mut i: usize = 0;
    while i < n
        invariant
            i <= n,
            row@ == filled(cell, i as nat),
        decreases n - i,
    {
        row.push(cell);
        i += 1;
        assert(row@ =~= filled(cell, i as nat));
    }
    row
}

/// Appends the cells of `tail` to `row`.
pub fn extend_row(row: &mut Vec<u8>, tail: &Vec<u8>)
    ensures
        final(row)@ == old(row)@ + tail@,
{
    let ghost before = row@;
    let mut i: usize = 0;
    while i < tail.len()
        invariant
            i <= tail.len(),
            row@ == before + tail@.subrange(0, i as int),
        decreases tail.len() - i,
    {
        row.push(tail[i]);
        i += 1;
        assert(row@ =~= before + tail@.subrange(0, i as int));
    }
    assert(tail@.subrange(0, tail.len() as int) =~= tail@);
}

/// Builds the row that writes `pattern` `n` times.
pub fn repeat_pattern(pattern: &Vec<u8>, n: usize) -> (row: Vec<u8>)
    ensures
        row@ == repeated(pattern@, n as nat),
{
    let mut row: Vec<u8> = Vec::new();
    let mut i: usize = 0;
    while i < n
        invariant
            i <= n,
            row@ == repeated(pattern@, i as nat),
        decreases n - i,
    {
        extend_row(&mut row, pattern);
        i += 1;
    }
    row
}

/// Copies a row.
pub fn copy_row(row: &Vec<u8>) -> (copy: Vec<u8>)
    ensures
        copy@ == row@,
{
    let mut copy: Vec<u8> = Vec::new();
    extend_row(&mut copy, row);
    assert(copy@ =~= row@);
    copy
}

/// Appends the first `count` rows of `block` to `rows`.
pub fn push_rows(rows: &mut Vec<Vec<u8>>, block: &Vec<Vec<u8>>, count: usize)
    requires
        count <= block.len(),
    ensures
        cells(*final(rows)) == cells(*old(rows)) + cells(*block).subrange(0, count as int),
{
    let ghost before = cells(*rows);
    let mut i: usize = 0;
    while i < count
        invariant
            i <= count <= block.len(),
            cells(*rows) == before + cells(*block).subrange(0, i as int),
        decreases count - i,
    {
        let row = copy_row(&block[i]);
        let ghost prev = cells(*rows);
        rows.push(row);
        assert(cells(*rows) =~= prev.push(block[i as int]@));
        i += 1;
        assert(cells(*rows) =~= before + cells(*block).subrange(0, i as int));
    }
}

/// Appends one row to `rows`.
pub fn push_row(rows: &mut Vec<Vec<u8>>, row: Vec<u8>)
    ensures
        cells(*final(rows)) == cells(*old(rows)).push(row@),
{
    rows.push(row);
    assert(cells(*rows) =~= cells(*old(rows)).push(row@));
}

/// Reverses the cells of a row.
pub fn reverse_row(row: &Vec<u8>) -> (out: Vec<u8>)
    ensures
        out@ == reversed(row@),
{
    let n: usize = row.len();
    let mut out: Vec<u8> = Vec::new();
    let mut i: usize = 0;
    while i < n
        invariant
            i <= n,
            n == row.len(),
            out.len() == i,
            forall|k: int| 0 <= k < i ==> out[k] == row[n - 1 - k],
        decreases n - i,
    {
        out.push(row[n - 1 - i]);
        i += 1;
    }
    assert(out@ =~= reversed(row@));
    out
}

/// Mirrors a block: the rows come out in reverse order, each one reversed.
pub fn mirror(rows: &Vec<Vec<u8>>) -> (out: Vec<Vec<u8>>)
    ensures
        cells(out) == mirrored(cells(*rows)),
{
    let n: usize = rows.len();
    let mut out: Vec<Vec<u8>> = Vec::new();
    let mut i: usize = 0;
    while i < n
        invariant
            i <= n,
            n == rows.len(),
            out.len() == i,
            forall|k: int| 0 <= k < i ==> out[k]@ == reversed(#[trigger] rows[n - 1 - k]@),
        decreases n - i,
    {
        let row = reverse_row(&rows[n - 1 - i]);
        out.push(row);
        i += 1;
    }
    assert(cells(out) =~= mirrored(cells(*rows)));
    out
}

/// Mirroring twice gives the rows back.
pub proof fn lemma_mirror_involution(rows: Seq<Seq<u8>>)
    ensures
        mirrored(mirrored(rows)) == rows,
{
    assert forall|i: int| 0 <= i < rows.len() implies mirrored(mirrored(rows))[i] == rows[i] by {
        assert(reversed(reversed(rows[i])) =~= rows[i]);
    }
    assert(mirrored(mirrored(rows)) =~= rows);
}

/// The rows of a grid written one after another, without separators.
pub open spec fn flattened(rows: Seq<Seq<u8>>) -> Seq<u8>
    decreases rows.len(),
{
    if rows.len() == 0 {
        Seq::empty()
    } else {
        flattened(rows.drop_last()) + rows.last()
    }
}

/// In the flat form of a rectangular grid, the cell of row `r` and column `c`
/// stands at `r * width + c`.
pub proof fn lemma_flattened(rows: Seq<Seq<u8>>, width: nat, height: nat)
    requires
        is_rect(rows, width, height),
    ensures
        flattened(rows).len() == height * width,
        forall|r: int, c: int|
            0 <= r < height && 0 <= c < width ==> 0 <= #[trigger] cell_index(r, c, width as int)
                < height * width && flattened(rows)[cell_index(r, c, width as int)] == rows[r][c],
    decreases rows.len(),
{
    if rows.len() > 0 {
        let head = rows.drop_last();
        lemma_flattened(head, width, (height - 1) as nat);
        assert(height * width == (height - 1) * width + width) by (nonlinear_arith);
        assert forall|r: int, c: int| 0 <= r < height && 0 <= c < width implies 0
            <= #[trigger] cell_index(r, c, width as int) < height * width && flattened(
            rows,
        )[cell_index(r, c, width as int)] == rows[r][c] by {
            if r < height - 1 {
                assert(cell_index(r, c, width as int) < (height - 1) * width);
                assert(head[r] == rows[r]);
            } else {
                assert(cell_index(r, c, width as int) == (height - 1) * width + c);
            }
        }
    } else {
        assert(height * width == 0) by (nonlinear_arith)
            requires
                height == 0,
        ;
    }
}

/// The cells of a flat buffer lie inside it.
pub proof fn lemma_cell_index_bound(r: int, c: int, width: int, height: int)
    requires
        0 <= r < height,
        0 <= c < width,
    ensures
        0 <= cell_index(r, c, width) < height * width,
        cell_index(r, c, width) == r * width + c,
        0 <= r * width <= r * width + c,
{
    assert(0 <= r * width && r * width + width <= height * width) by (nonlinear_arith)
        requires
            0 <= r < height,
            0 <= width,
    ;
}

/// Writes the rows of a grid into one flat buffer, row after row.
pub fn flatten(rows: &Vec<Vec<u8>>) -> (flat: Vec<u8>)
    ensures
        flat@ == flattened(cells(*rows)),
{
    let mut flat: Vec<u8> = Vec::new();
    let mut i: usize = 0;
    while i < rows.len()
        invariant
            i <= rows.len(),
            flat@ == flattened(cells(*rows).subrange(0, i as int)),
        decreases rows.len() - i,
    {
        extend_row(&mut flat, &rows[i]);
        i += 1;
        assert(cells(*rows).subrange(0, i as int).drop_last() =~= cells(*rows).subrange(
            0,
            i - 1,
        ));
    }
    assert(cells(*rows).subrange(0, rows.len() as int) =~= cells(*rows));
    flat
}

/// The transpose of a flat row-major buffer, by `transpose::transpose`. The
/// input holds `height` rows of `width` cells; in the output the cell of input
/// row `y` and column `x` stands in row `x` and column `y` of a buffer with
/// rows of `height` cells. Both lengths must be the product of the two sides,
/// which the outside function insists on.
#[verifier::external_body]
fn transpose_cells(input: &Vec<u8>, width: usize, height: usize) -> (output: Vec<u8>)
    requires
        input.len() == width * height,
    ensures
        output.len() == input.len(),
        forall|x: int, y: int|
            0 <= x < width && 0 <= y < height ==> output[#[trigger] cell_index(
                x,
                y,
                height as int,
            )] == input[cell_index(y, x, width as int)],
{
    let mut output: Vec<u8> = vec![0u8; input.len()];
    transpose::transpose(input.as_slice(), output.as_mut_slice(), width, height);
    output
}

/// Splits a flat buffer into `count` rows of `len` cells.
pub fn split_rows(flat: &Vec<u8>, len: usize, count: usize) -> (rows: Vec<Vec<u8>>)
    requires
        flat.len() == count * len,
    ensures
        is_rect(cells(rows), len as nat, count as nat),
        forall|r: int, c: int|
            0 <= r < count && 0 <= c < len ==> cells(rows)[r][c] == flat[#[trigger] cell_index(
                r,
                c,
                len as int,
            )],
{
    let mut rows: Vec<Vec<u8>> = Vec::new();
    let mut r: usize = 0;
    while r < count
        invariant
            r <= count,
            flat.len() == count * len,
            rows.len() == r,
            forall|i: int| 0 <= i < r ==> (#[trigger] rows[i]).len() == len,
            forall|i: int, c: int|
                0 <= i < r && 0 <= c < len ==> rows[i][c] == flat[#[trigger] cell_index(
                    i,
                    c,
                    len as int,
                )],
        decreases count - r,
    {
        let mut row: Vec<u8> = Vec::new();
        let mut c: usize = 0;
        while c < len
            invariant
                c <= len,
                r < count,
                flat.len() == count * len,
                row.len() == c,
                forall|k: int|
                    0 <= k < c ==> row[k] == flat[#[trigger] cell_index(r as int, k, len as int)],
            decreases len - c,
        {
            proof {
                lemma_cell_index_bound(r as int, c as int, len as int, count as int);
            }
            row.push(flat[r * len + c]);
            c += 1;
        }
        rows.push(row);
        r += 1;
    }
    assert(is_rect(cells(rows), len as nat, count as nat));
    rows
}

/// Turns a `height` by `width` grid into a `width` by `height` one: the grid
/// is flattened, transposed, split into rows again, and each row is reversed.
pub fn turn(rows: &Vec<Vec<u8>>, width: usize, height: usize) -> (out: Vec<Vec<u8>>)
    requires
        is_rect(cells(*rows), width as nat, height as nat),
    ensures
        cells(out) == turned(cells(*rows), width as nat, height as nat),
        is_rect(cells(out), height as nat, width as nat),
{
    let flat = flatten(rows);
    proof {
        lemma_flattened(cells(*rows), width as nat, height as nat);
        assert(width * height == height * width) by (nonlinear_arith);
    }
    let swapped = transpose_cells(&flat, width, height);
    let columns = split_rows(&swapped, height, width);
    let mut out: Vec<Vec<u8>> = Vec::new();
    let mut x: usize = 0;
    while x < width
        invariant
            x <= width,
            columns.len() == width,
            out.len() == x,
            forall|k: int| 0 <= k < x ==> (#[trigger] out[k])@ == reversed(columns[k]@),
        decreases width - x,
    {
        let row = reverse_row(&columns[x]);
        out.push(row);
        x += 1;
    }
    proof {
        let want = turned(cells(*rows), width as nat, height as nat);
        assert forall|k: int| 0 <= k < width implies cells(out)[k] =~= want[k] by {
            assert(cells(columns)[k].len() == height);
            assert forall|y: int| 0 <= y < height implies cells(out)[k][y] == want[k][y] by {
                let j = height - 1 - y;
                assert(cells(columns)[k][j] == swapped[cell_index(k, j, height as int)]);
                assert(flat[cell_index(j, k, width as int)] == cells(*rows)[j][k]);
            }
        }
        assert(cells(out) =~= want);
    }
    out
}

/// Turning a rectangular grid and reading the result back the same way gives
/// the grid itself.
pub proof fn lemma_turn_round_trip(rows: Seq<Seq<u8>>, width: nat, height: nat)
    requires
        is_rect(rows, width, height),
    ensures
        mirrored(turned(turned(rows, width, height), height, width)) == rows,
{
    let back = mirrored(turned(turned(rows, width, height), height, width));
    assert forall|i: int| 0 <= i < height implies back[i] =~= rows[i] by {}
    assert(back =~= rows);
}

/// A turned grid is the transpose with each row reversed.
pub proof fn lemma_turned_flipped(rows: Seq<Seq<u8>>, width: nat, height: nat)
    requires
        is_rect(rows, width, height),
    ensures
        flipped(turned(rows, width, height)) == transposed(rows, width, height),
{
    let a = flipped(turned(rows, width, height));
    let b = transposed(rows, width, height);
    assert forall|i: int| 0 <= i < width implies a[i] =~= b[i] by {}
    assert(a =~= b);
}

/// Transposing a rectangular grid twice gives the grid itself.
pub proof fn lemma_transpose_involution(rows: Seq<Seq<u8>>, width: nat, height: nat)
    requires
        is_rect(rows, width, height),
    ensures
        transposed(transposed(rows, width, height), height, width) == rows,
{
    let back = transposed(transposed(rows, width, height), height, width);
    assert forall|i: int| 0 <= i < height implies back[i] =~= rows[i] by {}
    assert(back =~= rows);
}

/// No row holds more occupied cells than it has cells.
pub proof fn lemma_occupied_in_row_bound(row: Seq<u8>)
    ensures
        occupied_in_row(row) <= row.len(),
    decreases row.len(),
{
    if row.len() > 0 {
        lemma_occupied_in_row_bound(row.drop_last());
    }
}

/// Counts the occupied cells of a row.
pub fn count_row(row: &Vec<u8>) -> (count: usize)
    ensures
        count == occupied_in_row(row@),
{
    let mut count: usize = 0;
    let mut i: usize = 0;
    while i < row.len()
        invariant
            i <= row.len(),
            count <= i,
            count == occupied_in_row(row@.subrange(0, i as int)),
        decreases row.len() - i,
    {
        assert(row@.subrange(0, i + 1).drop_last() =~= row@.subrange(0, i as int));
        if row[i] == OCCUPIED {
            count += 1;
        }
        i += 1;
    }
    assert(row@.subrange(0, row.len() as int) =~= row@);
    count
}

/// Counts the occupied cells of a rectangular grid.
pub fn count_occupied(rows: &Vec<Vec<u8>>, width: usize, height: usize) -> (count: usize)
    requires
        is_rect(cells(*rows), width as nat, height as nat),
        width * height <= usize::MAX,
    ensures
        count == occupied(cells(*rows)),
{
    let mut count: usize = 0;
    let mut i: usize = 0;
    while i < rows.len()
        invariant
            i <= rows.len(),
            rows.len() == height,
            is_rect(cells(*rows), width as nat, height as nat),
            width * height <= usize::MAX,
            count <= i * width,
            count == occupied(cells(*rows).subrange(0, i as int)),
        decreases rows.len() - i,
    {
        assert(cells(*rows).subrange(0, i + 1).drop_last() =~= cells(*rows).subrange(
            0,
            i as int,
        ));
        let in_row: usize = count_row(&rows[i]);
        proof {
            lemma_occupied_in_row_bound(rows[i as int]@);
            assert(cells(*rows)[i as int].len() == width);
            assert(i * width + width <= width * height) by (nonlinear_arith)
                requires
                    i < height,
                    0 <= width,
            ;
            assert((i + 1) * width == i * width + width) by (nonlinear_arith);
        }
        count += in_row;
        i += 1;
    }
    assert(cells(*rows).subrange(0, rows.len() as int) =~= cells(*rows));
    count
}

/// Writes rows one after another with `sep` between neighbours.
pub fn join(rows: &Vec<Vec<u8>>, sep: &Vec<u8>) -> (text: Vec<u8>)
    ensures
        text@ == joined(cells(*rows), sep@),
{
    let mut text: Vec<u8> = Vec::new();
    let mut i: usize = 0;
    while i < rows.len()
        invariant
            i <= rows.len(),
            text@ == joined(cells(*rows).subrange(0, i as int), sep@),
        decreases rows.len() - i,
    {
        assert(cells(*rows).subrange(0, i + 1).drop_last() =~= cells(*rows).subrange(
            0,
            i as int,
        ));
        if i > 0 {
            extend_row(&mut text, sep);
        }
        extend_row(&mut text, &rows[i]);
        i += 1;
        assert(text@ =~= joined(cells(*rows).subrange(0, i as int), sep@));
    }
    assert(cells(*rows).subrange(0, rows.len() as int) =~= cells(*rows));
    text
}

/// Renders a grid as text: its rows, with a line break between neighbours.
pub fn render(rows: &Vec<Vec<u8>>) -> (text: Vec<u8>)
    ensures
        text@ == joined(cells(*rows), line_break()),
{
    let mut sep: Vec<u8> = Vec::new();
    sep.push(CR);
    sep.push(LF);
    assert(sep@ =~= line_break());
    join(rows, &sep)
}

} // verus!

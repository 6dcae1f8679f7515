//! Grids of desk labels: every cell holds the label of the desk that covers
//! it, or zero where no desk stands.

use itertools::Itertools;
use vstd::prelude::*;
use crate::grid::{cells, joined, line_break, render};
use crate::text::{number, parse_number, split, split_bytes};

verus! {

/// The labels of a grid as a sequence of rows.
pub open spec fn labels(grid: Vec<Vec<usize>>) -> Seq<Seq<usize>> {
    Seq::new(grid@.len(), |i: int| grid@[i]@)
}

/// A grid of labels is a table when it has `height` rows of `width` cells.
pub open spec fn is_table(grid: Seq<Seq<usize>>, width: nat, height: nat) -> bool {
    &&& grid.len() == height
    &&& forall|i: int| 0 <= i < grid.len() ==> (#[trigger] grid[i]).len() == width
}

/// The grid with one cell emptied.
pub open spec fn without(grid: Seq<Seq<usize>>, r: int, c: int) -> Seq<Seq<usize>> {
    grid.update(r, grid[r].update(c, 0))
}

/// The first label of a row that is not zero.
pub open spec fn first_label(row: Seq<usize>) -> Option<usize>
    decreases row.len(),
{
    if row.len() == 0 {
        None
    } else {
        match first_label(row.drop_last()) {
            Some(label) => Some(label),
            None => if row.last() != 0 {
                Some(row.last())
            } else {
                None
            },
        }
    }
}

/// The first label of a grid that is not zero, reading row by row.
pub open spec fn first_left(grid: Seq<Seq<usize>>) -> Option<usize>
    decreases grid.len(),
{
    if grid.len() == 0 {
        None
    } else {
        match first_left(grid.drop_last()) {
            Some(label) => Some(label),
            None => first_label(grid.last()),
        }
    }
}

/// The first row that does not have `width` cells.
pub open spec fn first_bad_row(grid: Seq<Seq<usize>>, width: nat) -> Option<int>
    decreases grid.len(),
{
    if grid.len() == 0 {
        None
    } else {
        match first_bad_row(grid.drop_last(), width) {
            Some(row) => Some(row),
            None => if grid.last().len() != width {
                Some(grid.len() - 1)
            } else {
                None
            },
        }
    }
}

/// A grid without a bad row is a table, and a bad row is a row of the grid
/// with another number of cells, the first such.
pub proof fn lemma_first_bad_row(grid: Seq<Seq<usize>>, width: nat)
    ensures
        first_bad_row(grid, width) is None <==> is_table(grid, width, grid.len()),
        first_bad_row(grid, width) matches Some(row) ==> 0 <= row < grid.len() && grid[row].len()
            != width && is_table(grid.subrange(0, row), width, row as nat),
    decreases grid.len(),
{
    if grid.len() > 0 {
        let head = grid.drop_last();
        lemma_first_bad_row(head, width);
        match first_bad_row(head, width) {
            Some(row) => {
                assert(head[row] == grid[row]);
                assert(grid.subrange(0, row) =~= head.subrange(0, row));
            },
            None => {
                assert forall|i: int| 0 <= i < head.len() implies (#[trigger] grid[i]).len()
                    == width by {
                    assert(head[i] == grid[i]);
                }
                assert(grid.subrange(0, grid.len() - 1) =~= head);
                if is_table(grid, width, grid.len()) {
                    assert(grid[grid.len() - 1].len() == width);
                }
            },
        }
    }
}

/// Finds the first label of a grid that is not zero.
pub fn find_left(grid: &Vec<Vec<usize>>) -> (found: Option<usize>)
    ensures
        found == first_left(labels(*grid)),
{
    let mut found: Option<usize> = None;
    let mut r: usize = 0;
    assert(labels(*grid).subrange(0, 0) =~= Seq::<Seq<usize>>::empty());
    while r < grid.len()
        invariant
            r <= grid.len(),
            found == first_left(labels(*grid).subrange(0, r as int)),
        decreases grid.len() - r,
    {
        assert(labels(*grid).subrange(0, r + 1).drop_last() =~= labels(*grid).subrange(
            0,
            r as int,
        ));
        let mut in_row: Option<usize> = None;
        let mut c: usize = 0;
        let row = &grid[r];
        assert(row@.subrange(0, 0) =~= Seq::<usize>::empty());
        while c < row.len()
            invariant
                c <= row.len(),
                in_row == first_label(row@.subrange(0, c as int)),
            decreases row.len() - c,
        {
            assert(row@.subrange(0, c + 1).drop_last() =~= row@.subrange(0, c as int));
            if in_row.is_none() && row[c] != 0 {
                in_row = Some(row[c]);
            }
            c += 1;
        }
        assert(row@.subrange(0, row.len() as int) =~= row@);
        if found.is_none() {
            found = in_row;
        }
        r += 1;
    }
    assert(labels(*grid).subrange(0, grid.len() as int) =~= labels(*grid));
    found
}

/// Finds the first row that does not have `width` cells.
pub fn find_bad_row(grid: &Vec<Vec<usize>>, width: usize) -> (found: Option<usize>)
    ensures
        found is Some <==> first_bad_row(labels(*grid), width as nat) is Some,
        found matches Some(row) ==> first_bad_row(labels(*grid), width as nat) == Some(
            row as int,
        ) && row < grid.len(),
{
    let mut found: Option<usize> = None;
    let mut r: usize = 0;
    assert(labels(*grid).subrange(0, 0) =~= Seq::<Seq<usize>>::empty());
    while r < grid.len()
        invariant
            r <= grid.len(),
            found is Some <==> first_bad_row(labels(*grid).subrange(0, r as int), width as nat)
                is Some,
            found matches Some(row) ==> first_bad_row(
                labels(*grid).subrange(0, r as int),
                width as nat,
            ) == Some(row as int) && row < r,
        decreases grid.len() - r,
    {
        assert(labels(*grid).subrange(0, r + 1).drop_last() =~= labels(*grid).subrange(
            0,
            r as int,
        ));
        if found.is_none() && grid[r].len() != width {
            found = Some(r);
        }
        r += 1;
    }
    assert(labels(*grid).subrange(0, grid.len() as int) =~= labels(*grid));
    found
}

/// Copies a grid of labels.
pub fn copy_labels(grid: &Vec<Vec<usize>>) -> (copy: Vec<Vec<usize>>)
    ensures
        labels(copy) == labels(*grid),
{
    let mut copy: Vec<Vec<usize>> = Vec::new();
    let mut r: usize = 0;
    while r < grid.len()
        invariant
            r <= grid.len(),
            copy.len() == r,
            forall|i: int| 0 <= i < r ==> (#[trigger] copy[i])@ == grid[i]@,
        decreases grid.len() - r,
    {
        let mut row: Vec<usize> = Vec::new();
        let mut c: usize = 0;
        while c < grid[r].len()
            invariant
                r < grid.len(),
                c <= grid[r as int].len(),
                row@ == grid[r as int]@.subrange(0, c as int),
            decreases grid[r as int].len() - c,
        {
            row.push(grid[r][c]);
            c += 1;
            assert(row@ =~= grid[r as int]@.subrange(0, c as int));
        }
        assert(row@ =~= grid[r as int]@);
        copy.push(row);
        r += 1;
    }
    assert(labels(copy) =~= labels(*grid));
    copy
}

/// The blank between the labels of a row.
pub const SPACE: u8 = 32;

/// The digit zero.
pub const ZERO: u8 = 48;

/// A number in decimal digits, without sign or leading zeros.
pub open spec fn decimal(n: nat) -> Seq<u8>
    decreases n,
{
    if n < 10 {
        seq![(ZERO + n) as u8]
    } else {
        decimal(n / 10).push((ZERO + n % 10) as u8)
    }
}

/// A row of labels as text: the labels in decimal digits with one blank
/// between neighbours.
pub open spec fn row_text(row: Seq<usize>) -> Seq<u8> {
    joined(Seq::new(row.len(), |i: int| decimal(row[i] as nat)), seq![SPACE])
}

/// A grid of labels as text: its rows with a line break between neighbours.
pub open spec fn grid_text(grid: Seq<Seq<usize>>) -> Seq<u8> {
    joined(Seq::new(grid.len(), |i: int| row_text(grid[i])), line_break())
}

/// Numbers as text with a separator between neighbours, by
/// `Itertools::join`. The outside function writes each item as `Display`
/// gives it, which for an unsigned integer is its decimal digits, and puts
/// the separator between neighbours; no item gives the empty text. The
/// separator is one byte of plain text, which stands for itself.
#[verifier::external_body]
fn join_numbers(row: &Vec<usize>, sep: u8) -> (text: Vec<u8>)
    requires
        sep < 128,
    ensures
        text@ == joined(Seq::new(row@.len(), |i: int| decimal(row@[i] as nat)), seq![sep]),
{
    let sep = String::from(char::from(sep));
    row.iter().join(&sep).into_bytes()
}

/// Writes a number in decimal digits behind a text.
pub fn write_decimal(text: &mut Vec<u8>, n: usize)
    ensures
        final(text)@ == old(text)@ + decimal(n as nat),
    decreases n,
{
    if n < 10 {
        let digit: u8 = ZERO + n as u8;
        text.push(digit);
        assert(text@ =~= old(text)@ + decimal(n as nat));
    } else {
        write_decimal(text, n / 10);
        let digit: u8 = ZERO + (n % 10) as u8;
        text.push(digit);
        assert(text@ =~= old(text)@ + decimal(n as nat));
    }
}

/// Renders a number in decimal digits.
pub fn render_number(n: usize) -> (text: Vec<u8>)
    ensures
        text@ == decimal(n as nat),
{
    let mut text: Vec<u8> = Vec::new();
    write_decimal(&mut text, n);
    assert(text@ =~= decimal(n as nat));
    text
}

/// Renders a row of labels: the labels in decimal digits with one blank
/// between neighbours.
pub fn render_row(row: &Vec<usize>) -> (text: Vec<u8>)
    ensures
        text@ == row_text(row@),
{
    join_numbers(row, SPACE)
}

/// Renders a grid of labels.
pub fn render_labels(grid: &Vec<Vec<usize>>) -> (text: Vec<u8>)
    ensures
        text@ == grid_text(labels(*grid)),
{
    let mut rows: Vec<Vec<u8>> = Vec::new();
    let mut r: usize = 0;
    while r < grid.len()
        invariant
            r <= grid.len(),
            rows.len() == r,
            forall|i: int| 0 <= i < r ==> (#[trigger] rows[i])@ == row_text(grid[i]@),
        decreases grid.len() - r,
    {
        rows.push(render_row(&grid[r]));
        r += 1;
    }
    assert(cells(rows) =~= Seq::new(
        labels(*grid).len(),
        |i: int| row_text(labels(*grid)[i]),
    ));
    render(&rows)
}

/// The labels that a line of text stands for: its fields between blanks,
/// each of them a number. Nothing where a field is no number.
pub open spec fn row_labels(line: Seq<u8>) -> Option<Seq<usize>> {
    let fields = split(line, SPACE);
    if forall|i: int| 0 <= i < fields.len() ==> number(#[trigger] fields[i]) is Some {
        Some(Seq::new(fields.len(), |i: int| number(fields[i])->0))
    } else {
        None
    }
}

/// Reads the labels of a line of text.
pub fn parse_row(line: &Vec<u8>) -> (row: Option<Vec<usize>>)
    ensures
        row is Some <==> row_labels(line@) is Some,
        row matches Some(found) ==> row_labels(line@) == Some(found@),
{
    let fields = split_bytes(line.as_slice(), SPACE);
    let ghost want = split(line@, SPACE);
    let mut row: Vec<usize> = Vec::new();
    let mut good: bool = true;
    let mut i: usize = 0;
    while i < fields.len()
        invariant
            i <= fields.len(),
            cells(fields) == want,
            good <==> forall|k: int| 0 <= k < i ==> number(#[trigger] want[k]) is Some,
            good ==> row.len() == i,
            good ==> forall|k: int| 0 <= k < i ==> (#[trigger] row[k]) == number(want[k])->0,
        decreases fields.len() - i,
    {
        assert(fields[i as int]@ == want[i as int]);
        match parse_number(&fields[i]) {
            Some(label) => {
                if good {
                    row.push(label);
                }
            },
            None => {
                good = false;
            },
        }
        i += 1;
    }
    if good {
        assert(row@ =~= row_labels(line@)->0);
        Some(row)
    } else {
        None
    }
}

} // verus!

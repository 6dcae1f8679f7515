//! How many cells the building blocks of a grid occupy: counts add up over
//! rows and cells put together, multiply over repetition, and stay the same
//! when a row is read backwards or a grid is turned.

use vstd::prelude::*;
use crate::grid::{
    copies, filled, is_rect, occupied, occupied_in_row, repeated, reversed, turned, OCCUPIED,
};

verus! {

/// The occupied cells of two rows put together are those of both.
pub proof fn lemma_row_sum(a: Seq<u8>, b: Seq<u8>)
    ensures
        occupied_in_row(a + b) == occupied_in_row(a) + occupied_in_row(b),
    decreases b.len(),
{
    if b.len() == 0 {
        assert(a + b =~= a);
    } else {
        lemma_row_sum(a, b.drop_last());
        assert((a + b).drop_last() =~= a + b.drop_last());
    }
}

/// A row of one cell repeated is occupied throughout or not at all.
pub proof fn lemma_filled_count(cell: u8, n: nat)
    ensures
        occupied_in_row(filled(cell, n)) == if cell == OCCUPIED {
            n
        } else {
            0
        },
    decreases n,
{
    if n > 0 {
        lemma_filled_count(cell, (n - 1) as nat);
        assert(filled(cell, n).drop_last() =~= filled(cell, (n - 1) as nat));
    }
}

/// A pattern written `n` times occupies `n` times the cells of the pattern.
pub proof fn lemma_repeated_count(pattern: Seq<u8>, n: nat)
    ensures
        occupied_in_row(repeated(pattern, n)) == n * occupied_in_row(pattern),
    decreases n,
{
    if n > 0 {
        lemma_repeated_count(pattern, (n - 1) as nat);
        lemma_row_sum(repeated(pattern, (n - 1) as nat), pattern);
        assert(n * occupied_in_row(pattern) == (n - 1) * occupied_in_row(pattern)
            + occupied_in_row(pattern)) by (nonlinear_arith);
    } else {
        assert(0 * occupied_in_row(pattern) == 0);
    }
}

/// A row of one cell occupies it or not.
pub proof fn lemma_single_cell(cell: u8)
    ensures
        occupied_in_row(seq![cell]) == if cell == OCCUPIED {
            1nat
        } else {
            0nat
        },
{
    let one = seq![cell];
    assert(one.len() == 1 && one.last() == cell);
    assert(one.drop_last() =~= Seq::<u8>::empty());
    assert(occupied_in_row(Seq::<u8>::empty()) == 0);
}

/// A row read backwards occupies the same number of cells.
pub proof fn lemma_reversed_count(row: Seq<u8>)
    ensures
        occupied_in_row(reversed(row)) == occupied_in_row(row),
    decreases row.len(),
{
    if row.len() > 0 {
        let head = row.drop_last();
        lemma_reversed_count(head);
        assert(reversed(row) =~= seq![row.last()] + reversed(head));
        lemma_row_sum(seq![row.last()], reversed(head));
        lemma_single_cell(row.last());
    }
}

/// The occupied cells of two blocks stacked are those of both.
pub proof fn lemma_rows_sum(a: Seq<Seq<u8>>, b: Seq<Seq<u8>>)
    ensures
        occupied(a + b) == occupied(a) + occupied(b),
    decreases b.len(),
{
    if b.len() == 0 {
        assert(a + b =~= a);
    } else {
        lemma_rows_sum(a, b.drop_last());
        assert((a + b).drop_last() =~= a + b.drop_last());
    }
}

/// A block of one row occupies the cells of that row.
pub proof fn lemma_single_row(row: Seq<u8>)
    ensures
        occupied(seq![row]) == occupied_in_row(row),
{
    let one = seq![row];
    assert(one.len() == 1 && one.last() == row);
    assert(one.drop_last() =~= Seq::<Seq<u8>>::empty());
    assert(occupied(Seq::<Seq<u8>>::empty()) == 0);
}

/// A block stacked `n` times occupies `n` times the cells of the block.
pub proof fn lemma_copies_count(block: Seq<Seq<u8>>, n: nat)
    ensures
        occupied(copies(block, n)) == n * occupied(block),
    decreases n,
{
    if n > 0 {
        lemma_copies_count(block, (n - 1) as nat);
        lemma_rows_sum(copies(block, (n - 1) as nat), block);
        assert(n * occupied(block) == (n - 1) * occupied(block) + occupied(block))
            by (nonlinear_arith);
    } else {
        assert(0 * occupied(block) == 0);
    }
}

/// `n` copies of one row occupy `n` times the cells of the row.
pub proof fn lemma_same_rows_count(row: Seq<u8>, n: nat)
    ensures
        occupied(Seq::new(n, |i: int| row)) == n * occupied_in_row(row),
    decreases n,
{
    if n > 0 {
        lemma_same_rows_count(row, (n - 1) as nat);
        assert(Seq::new(n, |i: int| row).drop_last() =~= Seq::new((n - 1) as nat, |i: int| row));
        assert(n * occupied_in_row(row) == (n - 1) * occupied_in_row(row) + occupied_in_row(
            row,
        )) by (nonlinear_arith);
    } else {
        assert(0 * occupied_in_row(row) == 0);
    }
}

/// The first `k` rows of a block occupy the cells of the rows before and
/// those of row `k - 1`.
pub proof fn lemma_prefix_count(rows: Seq<Seq<u8>>, k: int)
    requires
        0 < k <= rows.len(),
    ensures
        occupied(rows.subrange(0, k)) == occupied(rows.subrange(0, k - 1)) + occupied_in_row(
            rows[k - 1],
        ),
{
    assert(rows.subrange(0, k).drop_last() =~= rows.subrange(0, k - 1));
}

/// A row with one more cell at its end.
pub proof fn lemma_push_count(row: Seq<u8>, cell: u8)
    ensures
        occupied_in_row(row.push(cell)) == occupied_in_row(row) + if cell == OCCUPIED {
            1nat
        } else {
            0nat
        },
{
    assert(row.push(cell).drop_last() =~= row);
}

/// The cells of one row stood upright, one cell to a row, occupy what the
/// row occupies.
pub proof fn lemma_column_count(row: Seq<u8>)
    ensures
        occupied(Seq::new(row.len(), |x: int| seq![row[x]])) == occupied_in_row(row),
    decreases row.len(),
{
    let column = Seq::new(row.len(), |x: int| seq![row[x]]);
    if row.len() > 0 {
        let head = row.drop_last();
        lemma_column_count(head);
        assert(column.drop_last() =~= Seq::new(head.len(), |x: int| seq![head[x]]));
        lemma_single_cell(row.last());
    }
}

/// Two grids with the same number of rows, put side by side, occupy the
/// cells of both.
pub proof fn lemma_side_by_side(a: Seq<Seq<u8>>, b: Seq<Seq<u8>>)
    requires
        a.len() == b.len(),
    ensures
        occupied(Seq::new(a.len(), |x: int| a[x] + b[x])) == occupied(a) + occupied(b),
    decreases a.len(),
{
    let both = Seq::new(a.len(), |x: int| a[x] + b[x]);
    if a.len() > 0 {
        lemma_side_by_side(a.drop_last(), b.drop_last());
        assert(both.drop_last() =~= Seq::new(
            a.drop_last().len(),
            |x: int| a.drop_last()[x] + b.drop_last()[x],
        ));
        lemma_row_sum(a.last(), b.last());
    }
}

/// A turned grid occupies as many cells as the grid itself.
pub proof fn lemma_turned_count(rows: Seq<Seq<u8>>, width: nat, height: nat)
    requires
        is_rect(rows, width, height),
    ensures
        occupied(turned(rows, width, height)) == occupied(rows),
    decreases height,
{
    let out = turned(rows, width, height);
    if height == 0 {
        lemma_same_rows_count(Seq::<u8>::empty(), width);
        assert forall|x: int| 0 <= x < width implies out[x] =~= Seq::<u8>::empty() by {}
        assert(out =~= Seq::new(width, |i: int| Seq::<u8>::empty()));
        assert(occupied_in_row(Seq::<u8>::empty()) == 0);
        assert(width * 0 == 0);
    } else {
        let head = rows.drop_last();
        let last = rows.last();
        lemma_turned_count(head, width, (height - 1) as nat);
        let rest = turned(head, width, (height - 1) as nat);
        let column = Seq::new(last.len(), |x: int| seq![last[x]]);
        assert(last.len() == width);
        assert forall|x: int| 0 <= x < width implies out[x] =~= column[x] + rest[x] by {}
        assert(out =~= Seq::new(column.len(), |x: int| column[x] + rest[x]));
        lemma_side_by_side(column, rest);
        lemma_column_count(last);
    }
}

/// A rectangular grid occupies no more cells than it has.
pub proof fn lemma_occupied_bound(rows: Seq<Seq<u8>>, width: nat, height: nat)
    requires
        is_rect(rows, width, height),
    ensures
        occupied(rows) <= width * height,
    decreases rows.len(),
{
    if rows.len() > 0 {
        lemma_occupied_bound(rows.drop_last(), width, (height - 1) as nat);
        crate::grid::lemma_occupied_in_row_bound(rows.last());
        assert(width * height == width * (height - 1) + width) by (nonlinear_arith);
    } else {
        assert(width * height == 0) by (nonlinear_arith)
            requires
                height == 0,
        ;
    }
}

} // verus!

//! Pattern blocks and their assembly into strips: a block places upright
//! desks side by side across the width and ends in an empty row; the blocks
//! are stacked down the room, and the rows that are left over get a tail of
//! their own.

use vstd::prelude::*;
use crate::counting::{
    lemma_occupied_bound, lemma_copies_count, lemma_filled_count, lemma_push_count, lemma_repeated_count,
    lemma_row_sum, lemma_rows_sum, lemma_same_rows_count, lemma_single_row,
};
use crate::grid::{occupied, occupied_in_row, cells, copies, copy_row, extend_row, fill, filled, is_rect, push_row, push_rows, repeat_pattern, repeated, EMPTY, OCCUPIED};

verus! {

/// The row that alternates an occupied and an empty cell across the width;
/// an odd width ends in an occupied cell.
pub open spec fn alternating(width: nat) -> Seq<u8> {
    repeated(seq![OCCUPIED, EMPTY], width / 2) + if width % 2 == 1 {
        seq![OCCUPIED]
    } else {
        Seq::<u8>::empty()
    }
}

/// `desk` alternating rows: upright desks of `desk` cells in every other
/// column.
pub open spec fn upright_rows(width: nat, desk: nat) -> Seq<Seq<u8>> {
    Seq::new(desk, |i: int| alternating(width))
}

/// One block of a strip: the upright desks and the empty row below them.
pub open spec fn strip_block(width: nat, desk: nat) -> Seq<Seq<u8>> {
    upright_rows(width, desk).push(filled(EMPTY, width))
}

/// A row of desks lying end to end, each followed by one empty cell. Where
/// exactly one more desk fits without its gap it is placed; else the rest of
/// the row is empty.
pub open spec fn lying_row(width: nat, desk: nat) -> Seq<u8> {
    repeated(filled(OCCUPIED, desk).push(EMPTY), width / (desk + 1)) + if width % (desk + 1)
        == desk {
        filled(OCCUPIED, desk)
    } else {
        filled(EMPTY, width % (desk + 1))
    }
}

/// The rows below the last full block. `rest` rows are left, fewer than a
/// block has: `desk` of them take upright desks once more; fewer take one
/// row of lying desks and stay empty below it.
pub open spec fn strip_tail(width: nat, rest: nat, desk: nat) -> Seq<Seq<u8>> {
    if rest == 0 {
        Seq::empty()
    } else if rest == desk {
        upright_rows(width, desk)
    } else {
        seq![lying_row(width, desk)] + Seq::new((rest - 1) as nat, |i: int| filled(EMPTY, width))
    }
}

/// The strip construction for a room: full blocks, then the tail.
pub open spec fn strip_rows(width: nat, height: nat, desk: nat) -> Seq<Seq<u8>> {
    copies(strip_block(width, desk), height / (desk + 1)) + strip_tail(
        width,
        height % (desk + 1),
        desk,
    )
}

/// A pattern written `n` times is `n` times as long as the pattern.
pub proof fn lemma_repeated_len(pattern: Seq<u8>, n: nat)
    ensures
        repeated(pattern, n).len() == n * pattern.len(),
    decreases n,
{
    if n > 0 {
        lemma_repeated_len(pattern, (n - 1) as nat);
        assert(n * pattern.len() == (n - 1) * pattern.len() + pattern.len())
            by (nonlinear_arith);
    } else {
        assert(0 * pattern.len() == 0);
    }
}

/// Stacked copies of a rectangular block form a rectangular grid.
pub proof fn lemma_copies_rect(block: Seq<Seq<u8>>, n: nat, width: nat, rows: nat)
    requires
        is_rect(block, width, rows),
    ensures
        is_rect(copies(block, n), width, n * rows),
    decreases n,
{
    if n > 0 {
        lemma_copies_rect(block, (n - 1) as nat, width, rows);
        assert(n * rows == (n - 1) * rows + rows) by (nonlinear_arith);
        let head = copies(block, (n - 1) as nat);
        assert forall|i: int| 0 <= i < copies(block, n).len() implies (#[trigger] copies(
            block,
            n,
        )[i]).len() == width by {
            if i < head.len() {
                assert(copies(block, n)[i] == head[i]);
            } else {
                assert(copies(block, n)[i] == block[i - head.len()]);
            }
        }
    } else {
        assert(0 * rows == 0);
    }
}

/// The alternating row spans the width.
pub proof fn lemma_alternating_len(width: nat)
    ensures
        alternating(width).len() == width,
{
    let pair = seq![OCCUPIED, EMPTY];
    lemma_repeated_len(pair, width / 2);
    assert(pair.len() == 2);
    assert(seq![OCCUPIED].len() == 1);
    assert(repeated(pair, width / 2).len() == (width / 2) * 2);
    assert(width == (width / 2) * 2 + width % 2);
}

/// The row of lying desks spans the width.
pub proof fn lemma_lying_row_len(width: nat, desk: nat)
    ensures
        lying_row(width, desk).len() == width,
{
    let group = filled(OCCUPIED, desk).push(EMPTY);
    lemma_repeated_len(group, width / (desk + 1));
    assert(group.len() == desk + 1);
    assert(width == (width / (desk + 1)) * (desk + 1) + width % (desk + 1)) by (nonlinear_arith)
        requires
            desk + 1 > 0,
    ;
}

/// The strip construction fills the room: `height` rows of `width` cells.
pub proof fn lemma_strip_rows_rect(width: nat, height: nat, desk: nat)
    requires
        desk >= 1,
    ensures
        is_rect(strip_rows(width, height, desk), width, height),
{
    let period = desk + 1;
    let blocks = height / period;
    let rest = height % period;
    lemma_alternating_len(width);
    lemma_lying_row_len(width, desk);
    assert(is_rect(strip_block(width, desk), width, period));
    lemma_copies_rect(strip_block(width, desk), blocks, width, period);
    assert(height == blocks * period + rest && rest < period) by (nonlinear_arith)
        requires
            period > 0,
            blocks == height / period,
            rest == height % period,
    ;
    let head = copies(strip_block(width, desk), blocks);
    let tail = strip_tail(width, rest, desk);
    assert(is_rect(tail, width, rest));
    assert forall|i: int| 0 <= i < strip_rows(width, height, desk).len() implies (
    #[trigger] strip_rows(width, height, desk)[i]).len() == width by {
        if i < head.len() {
            assert(strip_rows(width, height, desk)[i] == head[i]);
        } else {
            assert(strip_rows(width, height, desk)[i] == tail[i - head.len()]);
        }
    }
}

/// Builds the alternating row.
pub fn build_alternating(width: usize) -> (row: Vec<u8>)
    ensures
        row@ == alternating(width as nat),
{
    let mut pair: Vec<u8> = Vec::new();
    pair.push(OCCUPIED);
    pair.push(EMPTY);
    assert(pair@ =~= seq![OCCUPIED, EMPTY]);
    let mut row = repeat_pattern(&pair, width / 2);
    if width % 2 == 1 {
        row.push(OCCUPIED);
        assert(row@ =~= alternating(width as nat));
    } else {
        assert(row@ =~= alternating(width as nat));
    }
    row
}

/// Builds `desk` alternating rows.
pub fn build_upright_rows(width: usize, desk: usize) -> (rows: Vec<Vec<u8>>)
    ensures
        cells(rows) == upright_rows(width as nat, desk as nat),
{
    let line = build_alternating(width);
    let mut rows: Vec<Vec<u8>> = Vec::new();
    let mut i: usize = 0;
    while i < desk
        invariant
            i <= desk,
            line@ == alternating(width as nat),
            cells(rows) == upright_rows(width as nat, i as nat),
        decreases desk - i,
    {
        let row = copy_row(&line);
        push_row(&mut rows, row);
        i += 1;
        assert(cells(rows) =~= upright_rows(width as nat, i as nat));
    }
    rows
}

/// Builds the row of lying desks.
pub fn build_lying_row(width: usize, desk: usize) -> (row: Vec<u8>)
    requires
        desk < usize::MAX,
    ensures
        row@ == lying_row(width as nat, desk as nat),
{
    let mut group = fill(OCCUPIED, desk);
    group.push(EMPTY);
    let mut row = repeat_pattern(&group, width / (desk + 1));
    let rest: usize = width % (desk + 1);
    let end = if rest == desk {
        fill(OCCUPIED, desk)
    } else {
        fill(EMPTY, rest)
    };
    extend_row(&mut row, &end);
    row
}

/// Appends `n` empty rows of `width` cells.
pub fn push_empty_rows(rows: &mut Vec<Vec<u8>>, width: usize, n: usize)
    ensures
        cells(*final(rows)) == cells(*old(rows)) + Seq::new(
            n as nat,
            |i: int| filled(EMPTY, width as nat),
        ),
{
    let ghost before = cells(*rows);
    let mut i: usize = 0;
    assert(cells(*rows) =~= before + Seq::new(0nat, |i: int| filled(EMPTY, width as nat)));
    while i < n
        invariant
            i <= n,
            cells(*rows) == before + Seq::new(i as nat, |i: int| filled(EMPTY, width as nat)),
        decreases n - i,
    {
        let row = fill(EMPTY, width);
        push_row(rows, row);
        i += 1;
        assert(cells(*rows) =~= before + Seq::new(
            i as nat,
            |i: int| filled(EMPTY, width as nat),
        ));
    }
}

/// Appends `n` copies of a block.
pub fn push_copies(rows: &mut Vec<Vec<u8>>, block: &Vec<Vec<u8>>, n: usize)
    ensures
        cells(*final(rows)) == cells(*old(rows)) + copies(cells(*block), n as nat),
{
    let ghost before = cells(*rows);
    let mut i: usize = 0;
    assert(cells(*rows) =~= before + copies(cells(*block), 0));
    while i < n
        invariant
            i <= n,
            cells(*rows) == before + copies(cells(*block), i as nat),
        decreases n - i,
    {
        push_rows(rows, block, block.len());
        assert(cells(*block).subrange(0, block.len() as int) =~= cells(*block));
        i += 1;
        assert(cells(*rows) =~= before + copies(cells(*block), i as nat));
    }
}

/// Builds the strip construction for a room of `width` by `height` cells with
/// desks of `desk` cells.
pub fn build_strip_rows(width: usize, height: usize, desk: usize) -> (rows: Vec<Vec<u8>>)
    requires
        1 <= desk < usize::MAX,
    ensures
        cells(rows) == strip_rows(width as nat, height as nat, desk as nat),
        is_rect(cells(rows), width as nat, height as nat),
{
    let upright = build_upright_rows(width, desk);
    let mut block: Vec<Vec<u8>> = Vec::new();
    push_rows(&mut block, &upright, upright.len());
    push_row(&mut block, fill(EMPTY, width));
    assert(cells(block) =~= strip_block(width as nat, desk as nat));

    let mut rows: Vec<Vec<u8>> = Vec::new();
    push_copies(&mut rows, &block, height / (desk + 1));
    let rest: usize = height % (desk + 1);
    let ghost head = cells(rows);
    if rest == desk {
        push_rows(&mut rows, &upright, upright.len());
        assert(cells(upright).subrange(0, upright.len() as int) =~= cells(upright));
    } else if rest > 0 {
        push_row(&mut rows, build_lying_row(width, desk));
        push_empty_rows(&mut rows, width, rest - 1);
    }
    assert(cells(rows) =~= strip_rows(width as nat, height as nat, desk as nat));
    proof {
        lemma_strip_rows_rect(width as nat, height as nat, desk as nat);
    }
    rows
}

/// The desks of one row of upright desks: one in every other column.
pub open spec fn upright_desks(width: nat) -> nat {
    width / 2 + width % 2
}

/// The desks of a row of lying desks.
pub open spec fn lying_desks_in_row(width: nat, desk: nat) -> nat {
    width / (desk + 1) + if width % (desk + 1) == desk {
        1nat
    } else {
        0nat
    }
}

/// The desks of the strip construction, block by block: every full block
/// takes the upright desks of one row, and so does a tail of `desk` rows; a
/// shorter tail takes its row of lying desks.
pub open spec fn strip_desks(width: nat, height: nat, desk: nat) -> nat {
    let rest = height % (desk + 1);
    (height / (desk + 1)) * upright_desks(width) + if rest == 0 {
        0
    } else if rest == desk {
        upright_desks(width)
    } else {
        lying_desks_in_row(width, desk)
    }
}

/// The alternating row occupies every other cell.
pub proof fn lemma_alternating_count(width: nat)
    ensures
        occupied_in_row(alternating(width)) == upright_desks(width),
{
    let pair = seq![OCCUPIED, EMPTY];
    lemma_repeated_count(pair, width / 2);
    assert(pair =~= Seq::<u8>::empty().push(OCCUPIED).push(EMPTY));
    lemma_push_count(Seq::<u8>::empty(), OCCUPIED);
    lemma_push_count(Seq::<u8>::empty().push(OCCUPIED), EMPTY);
    assert(occupied_in_row(Seq::<u8>::empty()) == 0);
    assert(occupied_in_row(pair) == 1);
    assert((width / 2) * 1 == width / 2);
    if width % 2 == 1 {
        assert(alternating(width) =~= repeated(pair, width / 2).push(OCCUPIED));
        lemma_push_count(repeated(pair, width / 2), OCCUPIED);
    } else {
        assert(alternating(width) =~= repeated(pair, width / 2));
    }
}

/// The row of lying desks occupies `desk` cells for each of its desks.
pub proof fn lemma_lying_row_count(width: nat, desk: nat)
    ensures
        occupied_in_row(lying_row(width, desk)) == desk * lying_desks_in_row(width, desk),
{
    let group = filled(OCCUPIED, desk).push(EMPTY);
    let n = width / (desk + 1);
    lemma_repeated_count(group, n);
    lemma_push_count(filled(OCCUPIED, desk), EMPTY);
    lemma_filled_count(OCCUPIED, desk);
    lemma_filled_count(EMPTY, width % (desk + 1));
    let end = if width % (desk + 1) == desk {
        filled(OCCUPIED, desk)
    } else {
        filled(EMPTY, width % (desk + 1))
    };
    lemma_row_sum(repeated(group, n), end);
    assert(desk * (n + 1) == n * desk + desk && desk * n == n * desk) by (nonlinear_arith);
}

/// The strip construction occupies `desk` cells for each desk that its
/// bookkeeping counts: the count by blocks and the rows agree.
pub proof fn lemma_strip_count(width: nat, height: nat, desk: nat)
    requires
        desk >= 1,
    ensures
        occupied(strip_rows(width, height, desk)) == desk * strip_desks(width, height, desk),
{
    let period = desk + 1;
    let blocks = height / period;
    let rest = height % period;
    let line = alternating(width);
    let per_row = upright_desks(width);
    lemma_alternating_count(width);
    lemma_same_rows_count(line, desk);
    lemma_filled_count(EMPTY, width);
    assert(upright_rows(width, desk) =~= Seq::new(desk, |i: int| line));
    let block = strip_block(width, desk);
    assert(block.drop_last() =~= upright_rows(width, desk));
    assert(occupied(block) == desk * per_row);
    lemma_copies_count(block, blocks);
    let tail = strip_tail(width, rest, desk);
    lemma_rows_sum(copies(block, blocks), tail);
    assert(blocks * (desk * per_row) == desk * (blocks * per_row)) by (nonlinear_arith);
    if rest == 0 {
        assert(occupied(tail) == 0);
        assert(desk * (blocks * per_row + 0) == desk * (blocks * per_row));
    } else if rest == desk {
        assert(desk * (blocks * per_row + per_row) == desk * (blocks * per_row) + desk
            * per_row) by (nonlinear_arith);
    } else {
        let empty_rows = Seq::new((rest - 1) as nat, |i: int| filled(EMPTY, width));
        lemma_lying_row_count(width, desk);
        lemma_single_row(lying_row(width, desk));
        lemma_same_rows_count(filled(EMPTY, width), (rest - 1) as nat);
        lemma_rows_sum(seq![lying_row(width, desk)], empty_rows);
        assert((rest - 1) * 0 == 0);
        let lying = lying_desks_in_row(width, desk);
        assert(desk * (blocks * per_row + lying) == desk * (blocks * per_row) + desk * lying)
            by (nonlinear_arith);
    }
}

/// Counts the desks of the strip construction by its blocks: so many for
/// every full block, and what the tail takes.
pub fn count_strip_desks(width: usize, height: usize, desk: usize) -> (count: usize)
    requires
        1 <= desk < usize::MAX,
        width * height <= usize::MAX,
    ensures
        count == strip_desks(width as nat, height as nat, desk as nat),
        desk * count == occupied(strip_rows(width as nat, height as nat, desk as nat)),
{
    proof {
        lemma_strip_count(width as nat, height as nat, desk as nat);
        lemma_strip_rows_rect(width as nat, height as nat, desk as nat);
        lemma_occupied_bound(
            strip_rows(width as nat, height as nat, desk as nat),
            width as nat,
            height as nat,
        );
        let total = strip_desks(width as nat, height as nat, desk as nat);
        assert(total <= desk * total) by (nonlinear_arith)
            requires
                desk >= 1,
                total >= 0,
        ;
        assert(0 <= (height as nat / (desk as nat + 1)) * upright_desks(width as nat))
            by (nonlinear_arith);
    }
    let per_row: usize = width / 2 + width % 2;
    let blocks: usize = height / (desk + 1);
    let rest: usize = height % (desk + 1);
    let mut count: usize = blocks * per_row;
    if rest == 0 {
    } else if rest == desk {
        count += per_row;
    } else {
        count += width / (desk + 1);
        if width % (desk + 1) == desk {
            count += 1;
        }
    }
    count
}

} // verus!

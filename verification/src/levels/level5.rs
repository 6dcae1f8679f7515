//! Desks of two cells with mirrored blocks. Four constructions compete for
//! every room: the long construction with its mirrored half-blocks, the same
//! laid out along the other axis, the strip construction, and the same along
//! the other axis. The one that places the most desks wins; among equals the
//! one that comes first in this order.

use vstd::prelude::*;
use crate::grid::{
    cells, copies, count_occupied, extend_row, fill, filled, is_rect, joined, line_break, mirror,
    flipped, join, lemma_transpose_involution, lemma_turned_flipped, mirrored, occupied, push_row, push_rows, render, repeat_pattern, repeated, reversed,
    transposed, turn, turned, CR, EMPTY, LF, OCCUPIED,
};
use crate::counting::{
    lemma_occupied_bound, lemma_copies_count, lemma_filled_count, lemma_prefix_count, lemma_push_count,
    lemma_repeated_count, lemma_reversed_count, lemma_row_sum, lemma_rows_sum,
    lemma_same_rows_count, lemma_single_row, lemma_turned_count,
};
use crate::grid::occupied_in_row;
use crate::input::{batch_of, read_rooms, BatchError};
use crate::levels::pairing::{candidate_mates, lemma_candidates_pair, pairs_up, stands_apart};
use crate::pattern::{count_strip_desks, lemma_strip_count, strip_desks};
use crate::pattern::{
    build_strip_rows, lemma_copies_rect, lemma_repeated_len, lemma_strip_rows_rect,
    push_copies, push_empty_rows, strip_rows,
};

verus! {

/// The number of cells of a desk in this variant.
pub const DESK_CELLS: usize = 2;

/// The number of rows after which the long construction repeats.
pub const LONG_PERIOD: usize = 7;

/// A room to furnish: its sides and the number of desks it must take.
#[derive(Debug, Copy, Clone, PartialEq, Eq, Structural)]
pub struct Room {
    pub width: usize,
    pub height: usize,
    pub desk_count: usize,
}

/// What one construction made of a room: the grid and the number of desks
/// that the construction counted while it laid them out.
#[derive(Debug)]
pub struct Candidate {
    pub grid: Vec<Vec<u8>>,
    pub placed_count: usize,
}

/// The best construction places another number of desks than the room asks
/// for. The rendered grid is kept for the report.
#[derive(Debug)]
pub struct TargetMismatch {
    pub width: usize,
    pub height: usize,
    pub target: usize,
    pub placed: usize,
    pub grid: Vec<u8>,
}

/// Why a batch gives no text: it cannot be read, or rooms of it fail.
#[derive(Debug)]
pub enum RunError {
    Batch(BatchError),
    Rooms(Vec<RoomFailure>),
}

/// A failure of one room of a batch; `room` counts from one.
#[derive(Debug)]
pub struct RoomFailure {
    pub room: usize,
    pub mismatch: TargetMismatch,
}

/// The number of desks in a grid of this variant: every desk takes two
/// cells, and the occupied cells of every construction pair up into desks.
pub open spec fn desks(rows: Seq<Seq<u8>>) -> nat {
    occupied(rows) / 2
}

/// The row that closes a half-block: a lying desk in the last two columns of
/// the even part of the width.
pub open spec fn closing_row(width: nat) -> Seq<u8>
    recommends
        width >= 2,
{
    filled(EMPTY, (width - 2 - width % 2) as nat) + seq![OCCUPIED, OCCUPIED] + filled(
        EMPTY,
        width % 2,
    )
}

/// The half-block of the long construction: upright desks in every other
/// column with a lying desk beside their heads, and the closing row. An odd
/// width keeps its last column empty.
pub open spec fn long_block(width: nat) -> Seq<Seq<u8>>
    recommends
        width >= 2,
{
    let pairs = ((width - 2) / 2) as nat;
    seq![
        repeated(seq![OCCUPIED, EMPTY], pairs) + seq![OCCUPIED, OCCUPIED] + filled(
            EMPTY,
            width % 2,
        ),
        repeated(seq![OCCUPIED, EMPTY], pairs) + seq![EMPTY, EMPTY] + filled(EMPTY, width % 2),
        closing_row(width),
    ]
}

/// A half-block above its mirror image.
pub open spec fn full_block(width: nat) -> Seq<Seq<u8>> {
    long_block(width) + mirrored(long_block(width))
}

/// One period of the long construction: the full block and an empty row.
pub open spec fn long_period(width: nat) -> Seq<Seq<u8>> {
    full_block(width).push(filled(EMPTY, width))
}

/// A row of lying desks, each followed by one empty cell, that leaves the
/// rest of the row empty.
pub open spec fn grouped_row(width: nat) -> Seq<u8> {
    repeated(seq![OCCUPIED, OCCUPIED, EMPTY], width / 3) + filled(EMPTY, width % 3)
}

/// The rows below the last full period of the long construction. An even
/// number of rows takes the start of a full block; one row takes lying
/// desks; three or five rows take the start of a full block and the closing
/// row.
pub open spec fn long_tail(width: nat, rest: nat) -> Seq<Seq<u8>>
    recommends
        rest < 7,
{
    if rest % 2 == 0 {
        full_block(width).subrange(0, rest as int)
    } else if rest == 1 {
        seq![grouped_row(width)]
    } else {
        full_block(width).subrange(0, rest - 1).push(closing_row(width))
    }
}

/// The long construction for a room. A room less than two cells wide takes
/// no desk.
pub open spec fn long_rows(width: nat, height: nat) -> Seq<Seq<u8>> {
    if width < 2 {
        Seq::new(height, |i: int| filled(EMPTY, width))
    } else {
        copies(long_period(width), height / 7) + long_tail(width, height % 7)
    }
}

/// The grid of each construction, in the order in which they compete: the
/// long construction along the width, the same along the height, the strip
/// construction along the width, the same along the height.
pub open spec fn candidate_rows(width: nat, height: nat, k: int) -> Seq<Seq<u8>> {
    if k == 0 {
        long_rows(width, height)
    } else if k == 1 {
        turned(long_rows(height, width), height, width)
    } else if k == 2 {
        strip_rows(width, height, 2)
    } else {
        turned(strip_rows(height, width, 2), height, width)
    }
}

/// The later of two candidates wins only with strictly more desks.
pub open spec fn better(width: nat, height: nat, best: int, k: int) -> int {
    if desks(candidate_rows(width, height, k)) > desks(candidate_rows(width, height, best)) {
        k
    } else {
        best
    }
}

/// The winning construction: the first one that places the most desks.
pub open spec fn winner(width: nat, height: nat) -> int {
    better(width, height, better(width, height, better(width, height, 0, 1), 2), 3)
}

/// The text of a batch: the grids with an empty line between neighbours and
/// after the last one.
pub open spec fn batch_text(texts: Seq<Seq<u8>>) -> Seq<u8> {
    joined(texts, seq![CR, LF, CR, LF]) + seq![CR, LF, CR, LF]
}

/// The closing row spans the width.
pub proof fn lemma_closing_row_len(width: nat)
    requires
        width >= 2,
    ensures
        closing_row(width).len() == width,
{
    assert(seq![OCCUPIED, OCCUPIED].len() == 2);
}

/// The half-block has three rows that span the width.
pub proof fn lemma_long_block_rect(width: nat)
    requires
        width >= 2,
    ensures
        is_rect(long_block(width), width, 3),
{
    let pairs = ((width - 2) / 2) as nat;
    let pair = seq![OCCUPIED, EMPTY];
    lemma_repeated_len(pair, pairs);
    lemma_closing_row_len(width);
    assert(pair.len() == 2);
    assert(seq![OCCUPIED, OCCUPIED].len() == 2);
    assert(seq![EMPTY, EMPTY].len() == 2);
    assert(pairs * 2 + 2 + width % 2 == width);
    let block = long_block(width);
    assert(block.len() == 3);
    assert(block[0].len() == width);
    assert(block[1].len() == width);
    assert(block[2].len() == width);
}

/// The long construction fills the room: `height` rows of `width` cells.
pub proof fn lemma_long_rows_rect(width: nat, height: nat)
    ensures
        is_rect(long_rows(width, height), width, height),
{
    if width >= 2 {
        lemma_long_block_rect(width);
        lemma_closing_row_len(width);
        let half = long_block(width);
        let full = full_block(width);
        assert(half.len() == 3);
        assert(is_rect(mirrored(half), width, 3)) by {
            assert(half.len() == 3);
            assert forall|i: int| 0 <= i < 3 implies (#[trigger] mirrored(half)[i]).len()
                == width by {
                assert(half[2 - i].len() == width);
            }
        }
        assert(is_rect(full, width, 6)) by {
            assert forall|i: int| 0 <= i < 6 implies (#[trigger] full[i]).len() == width by {
                if i < 3 {
                    assert(full[i] == half[i]);
                } else {
                    assert(full[i] == mirrored(half)[i - 3]);
                }
            }
        }
        let period = long_period(width);
        assert(is_rect(period, width, 7)) by {
            assert forall|i: int| 0 <= i < 7 implies (#[trigger] period[i]).len() == width by {
                if i < 6 {
                    assert(period[i] == full[i]);
                }
            }
        }
        lemma_copies_rect(period, height / 7, width, 7);
        let head = copies(period, height / 7);
        let rest = height % 7;
        let tail = long_tail(width, rest);
        lemma_repeated_len(seq![OCCUPIED, OCCUPIED, EMPTY], width / 3);
        assert(seq![OCCUPIED, OCCUPIED, EMPTY].len() == 3);
        assert(width == (width / 3) * 3 + width % 3);
        assert(grouped_row(width).len() == width);
        assert(is_rect(tail, width, rest)) by {
            assert forall|i: int| 0 <= i < tail.len() implies (#[trigger] tail[i]).len()
                == width by {
                if rest % 2 == 0 {
                    assert(tail[i] == full[i]);
                } else if rest == 1 {
                } else if i < rest - 1 {
                    assert(tail[i] == full[i]);
                }
            }
        }
        let all = long_rows(width, height);
        assert forall|i: int| 0 <= i < all.len() implies (#[trigger] all[i]).len() == width by {
            if i < head.len() {
                assert(all[i] == head[i]);
            } else {
                assert(all[i] == tail[i - head.len()]);
            }
        }
    }
}

/// Builds the closing row.
fn build_closing_row(width: usize) -> (row: Vec<u8>)
    requires
        width >= 2,
    ensures
        row@ == closing_row(width as nat),
{
    let pad: usize = width % 2;
    let mut row = fill(EMPTY, width - 2 - pad);
    row.push(OCCUPIED);
    row.push(OCCUPIED);
    let gap = fill(EMPTY, pad);
    extend_row(&mut row, &gap);
    assert(row@ =~= closing_row(width as nat));
    row
}

/// Builds the half-block of the long construction.
fn build_long_block(width: usize) -> (block: Vec<Vec<u8>>)
    requires
        width >= 2,
    ensures
        cells(block) == long_block(width as nat),
{
    let mut pair: Vec<u8> = Vec::new();
    pair.push(OCCUPIED);
    pair.push(EMPTY);
    assert(pair@ =~= seq![OCCUPIED, EMPTY]);
    let pairs: usize = (width - 2) / 2;
    let gap = fill(EMPTY, width % 2);

    let mut first = repeat_pattern(&pair, pairs);
    first.push(OCCUPIED);
    first.push(OCCUPIED);
    extend_row(&mut first, &gap);
    assert(first@ =~= long_block(width as nat)[0]);

    let mut second = repeat_pattern(&pair, pairs);
    second.push(EMPTY);
    second.push(EMPTY);
    extend_row(&mut second, &gap);
    assert(second@ =~= long_block(width as nat)[1]);

    let third = build_closing_row(width);
    let mut block: Vec<Vec<u8>> = Vec::new();
    push_row(&mut block, first);
    push_row(&mut block, second);
    push_row(&mut block, third);
    assert(cells(block) =~= long_block(width as nat));
    block
}

/// Builds the row of lying desks that leaves its rest empty.
fn build_grouped_row(width: usize) -> (row: Vec<u8>)
    ensures
        row@ == grouped_row(width as nat),
{
    let mut group: Vec<u8> = Vec::new();
    group.push(OCCUPIED);
    group.push(OCCUPIED);
    group.push(EMPTY);
    assert(group@ =~= seq![OCCUPIED, OCCUPIED, EMPTY]);
    let mut row = repeat_pattern(&group, width / 3);
    let gap = fill(EMPTY, width % 3);
    extend_row(&mut row, &gap);
    row
}

/// Builds the long construction for a room of `width` by `height` cells.
pub fn build_long_rows(width: usize, height: usize) -> (rows: Vec<Vec<u8>>)
    ensures
        cells(rows) == long_rows(width as nat, height as nat),
        is_rect(cells(rows), width as nat, height as nat),
{
    let mut rows: Vec<Vec<u8>> = Vec::new();
    if width < 2 {
        push_empty_rows(&mut rows, width, height);
        assert(cells(rows) =~= long_rows(width as nat, height as nat));
    } else {
        let half = build_long_block(width);
        let back = mirror(&half);
        let mut full: Vec<Vec<u8>> = Vec::new();
        assert(cells(half).len() == 3 && cells(back).len() == 3);
        push_rows(&mut full, &half, 3);
        push_rows(&mut full, &back, 3);
        assert(cells(full) =~= full_block(width as nat)) by {
            assert(cells(half).subrange(0, 3) =~= cells(half));
            assert(cells(back).subrange(0, 3) =~= cells(back));
        }
        let mut period: Vec<Vec<u8>> = Vec::new();
        push_rows(&mut period, &full, 6);
        push_row(&mut period, fill(EMPTY, width));
        assert(cells(period) =~= long_period(width as nat)) by {
            assert(cells(full).subrange(0, 6) =~= cells(full));
        }
        push_copies(&mut rows, &period, height / LONG_PERIOD);
        let rest: usize = height % LONG_PERIOD;
        if rest % 2 == 0 {
            push_rows(&mut rows, &full, rest);
        } else if rest == 1 {
            push_row(&mut rows, build_grouped_row(width));
        } else {
            push_rows(&mut rows, &full, rest - 1);
            push_row(&mut rows, build_closing_row(width));
        }
        assert(cells(rows) =~= long_rows(width as nat, height as nat));
    }
    proof {
        lemma_long_rows_rect(width as nat, height as nat);
    }
    rows
}

impl Candidate {
    /// A candidate reports the number of desks that its grid holds.
    pub open spec fn well_formed(&self) -> bool {
        self.placed_count == desks(cells(self.grid))
    }

    /// Scans the grid and tells whether it holds the desks that the
    /// candidate reports.
    pub fn recount(&self, width: usize, height: usize) -> (same: bool)
        requires
            is_rect(cells(self.grid), width as nat, height as nat),
            width * height <= usize::MAX,
        ensures
            same == self.well_formed(),
    {
        count_occupied(&self.grid, width, height) / 2 == self.placed_count
    }
}

impl Room {
    /// The grid of the winning construction.
    pub open spec fn best_rows(&self) -> Seq<Seq<u8>> {
        candidate_rows(
            self.width as nat,
            self.height as nat,
            winner(self.width as nat, self.height as nat),
        )
    }

    /// The winning grid as text.
    pub open spec fn best_text(&self) -> Seq<u8> {
        joined(self.best_rows(), line_break())
    }

    /// Whether the winning construction places the desks the room asks for.
    pub open spec fn fits(&self) -> bool {
        desks(self.best_rows()) == self.desk_count
    }

    /// The long construction along the width.
    pub fn generate_room_table_matrix_for_even_width(&self) -> (candidate: Candidate)
        requires
            self.width * self.height <= usize::MAX,
        ensures
            cells(candidate.grid) == long_rows(self.width as nat, self.height as nat),
            is_rect(cells(candidate.grid), self.width as nat, self.height as nat),
            candidate.well_formed(),
            pairs_up(
                cells(candidate.grid),
                self.width as nat,
                self.height as nat,
                candidate_mates(self.width as nat, self.height as nat, 0),
            ),
            candidate.placed_count == long_desks(self.width as nat, self.height as nat),
    {
        proof {
            lemma_candidates_pair(self.width as nat, self.height as nat, 0);
            lemma_candidate_counts(self.width as nat, self.height as nat);
        }
        let grid = build_long_rows(self.width, self.height);
        let placed_count = count_long_desks(self.width, self.height);
        Candidate { grid, placed_count }
    }

    /// The long construction along the height: the twin room is solved along
    /// its width and the answer is turned back.
    pub fn generate_room_table_matrix_for_even_height(&self) -> (candidate: Candidate)
        requires
            self.width * self.height <= usize::MAX,
        ensures
            cells(candidate.grid) == turned(
                long_rows(self.height as nat, self.width as nat),
                self.height as nat,
                self.width as nat,
            ),
            is_rect(cells(candidate.grid), self.width as nat, self.height as nat),
            candidate.well_formed(),
            pairs_up(
                cells(candidate.grid),
                self.width as nat,
                self.height as nat,
                candidate_mates(self.width as nat, self.height as nat, 1),
            ),
            candidate.placed_count == long_desks(self.height as nat, self.width as nat),
    {
        proof {
            lemma_candidates_pair(self.width as nat, self.height as nat, 1);
            lemma_candidate_counts(self.width as nat, self.height as nat);
            assert(self.height * self.width == self.width * self.height) by (nonlinear_arith);
        }
        let lying = build_long_rows(self.height, self.width);
        let grid = turn(&lying, self.height, self.width);
        let placed_count = count_long_desks(self.height, self.width);
        Candidate { grid, placed_count }
    }

    /// The strip construction along the width.
    pub fn generate_room_table_matrix_for_uneven_width(&self) -> (candidate: Candidate)
        requires
            self.width * self.height <= usize::MAX,
        ensures
            cells(candidate.grid) == strip_rows(self.width as nat, self.height as nat, 2),
            is_rect(cells(candidate.grid), self.width as nat, self.height as nat),
            candidate.well_formed(),
            pairs_up(
                cells(candidate.grid),
                self.width as nat,
                self.height as nat,
                candidate_mates(self.width as nat, self.height as nat, 2),
            ),
            stands_apart(
                cells(candidate.grid),
                self.width as nat,
                self.height as nat,
                candidate_mates(self.width as nat, self.height as nat, 2),
            ),
            candidate.placed_count == strip_desks(self.width as nat, self.height as nat, 2),
    {
        proof {
            lemma_candidates_pair(self.width as nat, self.height as nat, 2);
            lemma_candidate_counts(self.width as nat, self.height as nat);
        }
        let grid = build_strip_rows(self.width, self.height, DESK_CELLS);
        let placed_count = count_strip_desks(self.width, self.height, DESK_CELLS);
        Candidate { grid, placed_count }
    }

    /// The strip construction along the height: the twin room is solved along
    /// its width and the answer is turned back.
    pub fn generate_room_table_matrix_for_uneven_height(&self) -> (candidate: Candidate)
        requires
            self.width * self.height <= usize::MAX,
        ensures
            cells(candidate.grid) == turned(
                strip_rows(self.height as nat, self.width as nat, 2),
                self.height as nat,
                self.width as nat,
            ),
            is_rect(cells(candidate.grid), self.width as nat, self.height as nat),
            candidate.well_formed(),
            pairs_up(
                cells(candidate.grid),
                self.width as nat,
                self.height as nat,
                candidate_mates(self.width as nat, self.height as nat, 3),
            ),
            stands_apart(
                cells(candidate.grid),
                self.width as nat,
                self.height as nat,
                candidate_mates(self.width as nat, self.height as nat, 3),
            ),
            candidate.placed_count == strip_desks(self.height as nat, self.width as nat, 2),
    {
        proof {
            lemma_candidates_pair(self.width as nat, self.height as nat, 3);
            lemma_candidate_counts(self.width as nat, self.height as nat);
            assert(self.height * self.width == self.width * self.height) by (nonlinear_arith);
        }
        let lying = build_strip_rows(self.height, self.width, DESK_CELLS);
        let grid = turn(&lying, self.height, self.width);
        let placed_count = count_strip_desks(self.height, self.width, DESK_CELLS);
        Candidate { grid, placed_count }
    }

    /// Runs the four constructions and keeps the first one that places the
    /// most desks.
    pub fn best_candidate(&self) -> (best: Candidate)
        requires
            self.width * self.height <= usize::MAX,
        ensures
            cells(best.grid) == self.best_rows(),
            is_rect(cells(best.grid), self.width as nat, self.height as nat),
            best.placed_count == desks(self.best_rows()),
            pairs_up(
                cells(best.grid),
                self.width as nat,
                self.height as nat,
                candidate_mates(
                    self.width as nat,
                    self.height as nat,
                    winner(self.width as nat, self.height as nat),
                ),
            ),
    {
        let mut best = self.generate_room_table_matrix_for_even_width();
        let ghost w = self.width as nat;
        let ghost h = self.height as nat;
        let ghost mut k: int = 0;
        let second = self.generate_room_table_matrix_for_even_height();
        if second.placed_count > best.placed_count {
            best = second;
            proof {
                k = 1;
            }
        }
        assert(k == better(w, h, 0, 1));
        let third = self.generate_room_table_matrix_for_uneven_width();
        let ghost k2 = k;
        if third.placed_count > best.placed_count {
            best = third;
            proof {
                k = 2;
            }
        }
        assert(k == better(w, h, k2, 2));
        let fourth = self.generate_room_table_matrix_for_uneven_height();
        let ghost k3 = k;
        if fourth.placed_count > best.placed_count {
            best = fourth;
            proof {
                k = 3;
            }
        }
        assert(k == better(w, h, k3, 3));
        best
    }

    /// Furnishes the room and renders the winning grid. The room fails when
    /// the winner places another number of desks than the room asks for; the
    /// failure carries the room, both counts and the rendered grid.
    pub fn generate_room_table_matrix(&self) -> (result: Result<Vec<u8>, TargetMismatch>)
        requires
            self.width * self.height <= usize::MAX,
        ensures
            result is Ok <==> self.fits(),
            result matches Ok(text) ==> text@ == self.best_text(),
            result matches Err(e) ==> e.describes(*self),
    {
        let best = self.best_candidate();
        let text = render(&best.grid);
        if best.placed_count != self.desk_count {
            return Err(
                TargetMismatch {
                    width: self.width,
                    height: self.height,
                    target: self.desk_count,
                    placed: best.placed_count,
                    grid: text,
                },
            );
        }
        Ok(text)
    }
}

impl TargetMismatch {
    /// The failure is the one that `room` gives.
    pub open spec fn describes(&self, room: Room) -> bool {
        &&& self.width == room.width
        &&& self.height == room.height
        &&& self.target == room.desk_count
        &&& self.placed == desks(room.best_rows())
        &&& self.placed != room.desk_count
        &&& self.grid@ == room.best_text()
    }
}

/// The texts of the winning grids of a batch of rooms.
pub open spec fn texts_of(rooms: Seq<Room>) -> Seq<Seq<u8>> {
    Seq::new(rooms.len(), |i: int| rooms[i].best_text())
}

/// The rooms of a batch that fail, by their number, counted from one.
pub open spec fn failing(rooms: Seq<Room>) -> Seq<int>
    decreases rooms.len(),
{
    if rooms.len() == 0 {
        Seq::empty()
    } else {
        failing(rooms.drop_last()) + if rooms.last().fits() {
            Seq::<int>::empty()
        } else {
            seq![rooms.len() as int]
        }
    }
}

/// Every failing room is a room of the batch.
pub proof fn lemma_failing_in_range(rooms: Seq<Room>)
    ensures
        forall|j: int|
            0 <= j < failing(rooms).len() ==> 1 <= #[trigger] failing(rooms)[j] <= rooms.len()
                && !rooms[failing(rooms)[j] - 1].fits(),
        failing(rooms).len() == 0 <==> forall|i: int|
            0 <= i < rooms.len() ==> (#[trigger] rooms[i]).fits(),
    decreases rooms.len(),
{
    if rooms.len() > 0 {
        let head = rooms.drop_last();
        lemma_failing_in_range(head);
        assert forall|j: int| 0 <= j < failing(rooms).len() implies 1 <= #[trigger] failing(
            rooms,
        )[j] <= rooms.len() && !rooms[failing(rooms)[j] - 1].fits() by {
            if j < failing(head).len() {
                assert(failing(rooms)[j] == failing(head)[j]);
                assert(head[failing(head)[j] - 1] == rooms[failing(head)[j] - 1]);
            }
        }
        if failing(rooms).len() == 0 {
            assert forall|i: int| 0 <= i < rooms.len() implies (#[trigger] rooms[i]).fits() by {
                if i < head.len() {
                    assert(head[i] == rooms[i]);
                }
            }
        } else if failing(head).len() == 0 {
            assert(!rooms[rooms.len() - 1].fits());
        } else {
            let i = choose|i: int| 0 <= i < head.len() && !(#[trigger] head[i]).fits();
            assert(rooms[i] == head[i]);
        }
    }
}

/// Furnishes every room of a batch. With every room furnished the result is
/// the text of the batch; else it is the list of the rooms that failed, in
/// their order, and no room is left out on account of another.
pub fn furnish(rooms: &Vec<Room>) -> (result: Result<Vec<u8>, Vec<RoomFailure>>)
    requires
        forall|i: int|
            0 <= i < rooms.len() ==> (#[trigger] rooms[i]).width * rooms[i].height <= usize::MAX,
    ensures
        result is Ok <==> failing(rooms@).len() == 0,
        result is Ok <==> forall|i: int| 0 <= i < rooms.len() ==> (#[trigger] rooms[i]).fits(),
        result matches Ok(text) ==> text@ == batch_text(texts_of(rooms@)),
        result matches Err(failures) ==> failures.len() == failing(rooms@).len() && forall|
            j: int,
        |
            0 <= j < failures.len() ==> (#[trigger] failures[j]).room == failing(rooms@)[j]
                && failures[j].mismatch.describes(rooms[failures[j].room - 1]),
{
    let mut texts: Vec<Vec<u8>> = Vec::new();
    let mut failures: Vec<RoomFailure> = Vec::new();
    let mut i: usize = 0;
    proof {
        lemma_failing_in_range(rooms@);
    }
    assert(rooms@.subrange(0, 0) =~= Seq::<Room>::empty());
    assert(cells(texts) =~= texts_of(rooms@.subrange(0, 0)));
    while i < rooms.len()
        invariant
            i <= rooms.len(),
            forall|i: int|
                0 <= i < rooms.len() ==> (#[trigger] rooms[i]).width * rooms[i].height
                    <= usize::MAX,
            failures.len() == failing(rooms@.subrange(0, i as int)).len(),
            forall|j: int|
                0 <= j < failures.len() ==> (#[trigger] failures[j]).room == failing(
                    rooms@.subrange(0, i as int),
                )[j] && 1 <= failures[j].room <= i && failures[j].mismatch.describes(
                    rooms[failures[j].room - 1],
                ),
            failures.len() == 0 ==> cells(texts) == texts_of(rooms@.subrange(0, i as int)),
        decreases rooms.len() - i,
    {
        let ghost before = rooms@.subrange(0, i as int);
        let ghost after = rooms@.subrange(0, i + 1);
        assert(after.drop_last() =~= before);
        assert(after.last() == rooms[i as int]);
        let ghost had = cells(texts);
        match rooms[i].generate_room_table_matrix() {
            Ok(text) => {
                texts.push(text);
                assert(failing(after) =~= failing(before));
                assert(failures.len() == 0 ==> cells(texts) =~= texts_of(after)) by {
                    assert(cells(texts) =~= had.push(text@));
                }
            },
            Err(mismatch) => {
                failures.push(RoomFailure { room: i + 1, mismatch });
                assert(failing(after) =~= failing(before).push(i + 1));
            },
        }
        i += 1;
    }
    assert(rooms@.subrange(0, rooms.len() as int) =~= rooms@);
    if failures.len() == 0 {
        let mut sep: Vec<u8> = Vec::new();
        sep.push(CR);
        sep.push(LF);
        sep.push(CR);
        sep.push(LF);
        assert(sep@ =~= seq![CR, LF, CR, LF]);
        let mut text = join(&texts, &sep);
        extend_row(&mut text, &sep);
        Ok(text)
    } else {
        Err(failures)
    }
}

/// A construction along the height is the construction of the twin room
/// along its width, transposed: with each of its rows read backwards it is
/// exactly that transpose, and transposing it back gives the twin's grid.
pub proof fn lemma_height_is_transposed_twin(room: Room)
    ensures
        flipped(candidate_rows(room.width as nat, room.height as nat, 1)) == transposed(
            candidate_rows(room.height as nat, room.width as nat, 0),
            room.height as nat,
            room.width as nat,
        ),
        flipped(candidate_rows(room.width as nat, room.height as nat, 3)) == transposed(
            candidate_rows(room.height as nat, room.width as nat, 2),
            room.height as nat,
            room.width as nat,
        ),
        transposed(
            flipped(candidate_rows(room.width as nat, room.height as nat, 1)),
            room.width as nat,
            room.height as nat,
        ) == candidate_rows(room.height as nat, room.width as nat, 0),
        transposed(
            flipped(candidate_rows(room.width as nat, room.height as nat, 3)),
            room.width as nat,
            room.height as nat,
        ) == candidate_rows(room.height as nat, room.width as nat, 2),
{
    let w = room.width as nat;
    let h = room.height as nat;
    lemma_strip_rows_rect(h, w, 2);
    lemma_long_rows_rect(h, w);
    lemma_turned_flipped(strip_rows(h, w, 2), h, w);
    lemma_turned_flipped(long_rows(h, w), h, w);
    lemma_transpose_involution(strip_rows(h, w, 2), h, w);
    lemma_transpose_involution(long_rows(h, w), h, w);
}

/// The rooms that the lines of a batch stand for.
pub open spec fn rooms_of(listed: Seq<(usize, usize, usize)>) -> Seq<Room> {
    Seq::new(
        listed.len(),
        |i: int| Room { width: listed[i].0, height: listed[i].1, desk_count: listed[i].2 },
    )
}

/// Makes rooms of what the lines of a batch gave.
pub fn make_rooms(listed: &Vec<(usize, usize, usize)>) -> (rooms: Vec<Room>)
    ensures
        rooms@ == rooms_of(listed@),
{
    let mut rooms: Vec<Room> = Vec::new();
    let mut i: usize = 0;
    while i < listed.len()
        invariant
            i <= listed.len(),
            rooms@ == rooms_of(listed@.subrange(0, i as int)),
        decreases listed.len() - i,
    {
        rooms.push(Room { width: listed[i].0, height: listed[i].1, desk_count: listed[i].2 });
        i += 1;
        assert(rooms@ =~= rooms_of(listed@.subrange(0, i as int)));
    }
    assert(listed@.subrange(0, listed.len() as int) =~= listed@);
    rooms
}

/// Whether a list of failures is the one that a batch of rooms gives: the
/// failing rooms in their order, each with its own report.
pub open spec fn reports(failures: Seq<RoomFailure>, rooms: Seq<Room>) -> bool {
    &&& failures.len() == failing(rooms).len()
    &&& forall|j: int|
        0 <= j < failures.len() ==> (#[trigger] failures[j]).room == failing(rooms)[j]
            && failures[j].mismatch.describes(rooms[failures[j].room - 1])
}

/// Reads a batch of rooms from its text and furnishes every room. A text
/// that is no batch fails as a whole; else every room is tried, and the
/// rooms that fail are reported together.
pub fn run(input: &[u8]) -> (result: Result<Vec<u8>, RunError>)
    ensures
        match batch_of(input@) {
            Err(e) => result matches Err(RunError::Batch(found)) && found == e,
            Ok(listed) => if failing(rooms_of(listed)).len() == 0 {
                result matches Ok(text) && text@ == batch_text(texts_of(rooms_of(listed)))
            } else {
                result matches Err(RunError::Rooms(failures)) && reports(
                    failures@,
                    rooms_of(listed),
                )
            },
        },
{
    let listed = match read_rooms(input) {
        Ok(listed) => listed,
        Err(e) => {
            return Err(RunError::Batch(e));
        },
    };
    let rooms = make_rooms(&listed);
    match furnish(&rooms) {
        Ok(text) => Ok(text),
        Err(failures) => Err(RunError::Rooms(failures)),
    }
}

/// The desks of the rows below the last full period of the long
/// construction.
pub open spec fn long_tail_desks(width: nat, rest: nat) -> nat
    recommends
        width >= 2,
        rest < 7,
{
    let pairs = ((width - 2) / 2) as nat;
    if rest == 0 {
        0
    } else if rest == 1 {
        width / 3
    } else if rest == 2 {
        pairs + 1
    } else if rest == 3 {
        pairs + 2
    } else if rest == 4 {
        pairs + 3
    } else if rest == 5 {
        pairs + 4
    } else {
        2 * pairs + 4
    }
}

/// The desks of the long construction, period by period: a half-block takes
/// its upright desks and two lying ones, a period takes two half-blocks.
pub open spec fn long_desks(width: nat, height: nat) -> nat {
    if width < 2 {
        0
    } else {
        (height / 7) * (2 * (((width - 2) / 2) as nat) + 4) + long_tail_desks(width, height % 7)
    }
}

/// Two cells at the end of a row.
proof fn lemma_two_cells(row: Seq<u8>, a: u8, b: u8)
    ensures
        occupied_in_row(row + seq![a, b]) == occupied_in_row(row) + (if a == OCCUPIED {
            1nat
        } else {
            0nat
        }) + (if b == OCCUPIED {
            1nat
        } else {
            0nat
        }),
{
    assert(row + seq![a, b] =~= row.push(a).push(b));
    lemma_push_count(row, a);
    lemma_push_count(row.push(a), b);
}

/// The cells that the rows of a half-block occupy.
proof fn lemma_long_block_count(width: nat)
    requires
        width >= 2,
    ensures
        occupied_in_row(long_block(width)[0]) == (width - 2) / 2 + 2,
        occupied_in_row(long_block(width)[1]) == (width - 2) / 2,
        occupied_in_row(long_block(width)[2]) == 2,
        occupied_in_row(closing_row(width)) == 2,
        occupied_in_row(grouped_row(width)) == 2 * (width / 3),
{
    let pairs = ((width - 2) / 2) as nat;
    let pair = seq![OCCUPIED, EMPTY];
    let run = repeated(pair, pairs);
    let gap = filled(EMPTY, width % 2);
    lemma_repeated_count(pair, pairs);
    lemma_two_cells(Seq::<u8>::empty(), OCCUPIED, EMPTY);
    assert(Seq::<u8>::empty() + pair =~= pair);
    assert(occupied_in_row(Seq::<u8>::empty()) == 0);
    assert(pairs * 1 == pairs);
    lemma_filled_count(EMPTY, width % 2);
    lemma_two_cells(run, OCCUPIED, OCCUPIED);
    lemma_row_sum(run + seq![OCCUPIED, OCCUPIED], gap);
    lemma_two_cells(run, EMPTY, EMPTY);
    lemma_row_sum(run + seq![EMPTY, EMPTY], gap);
    let lead = filled(EMPTY, (width - 2 - width % 2) as nat);
    lemma_filled_count(EMPTY, (width - 2 - width % 2) as nat);
    lemma_two_cells(lead, OCCUPIED, OCCUPIED);
    lemma_row_sum(lead + seq![OCCUPIED, OCCUPIED], gap);
    let group = seq![OCCUPIED, OCCUPIED, EMPTY];
    assert(group =~= Seq::<u8>::empty().push(OCCUPIED).push(OCCUPIED).push(EMPTY));
    lemma_push_count(Seq::<u8>::empty(), OCCUPIED);
    lemma_push_count(Seq::<u8>::empty().push(OCCUPIED), OCCUPIED);
    lemma_push_count(Seq::<u8>::empty().push(OCCUPIED).push(OCCUPIED), EMPTY);
    lemma_repeated_count(group, width / 3);
    lemma_filled_count(EMPTY, width % 3);
    lemma_row_sum(repeated(group, width / 3), filled(EMPTY, width % 3));
    assert((width / 3) * 2 == 2 * (width / 3));
}

/// The long construction occupies two cells for each desk that its
/// bookkeeping counts: the count by periods and the rows agree.
pub proof fn lemma_long_count(width: nat, height: nat)
    ensures
        occupied(long_rows(width, height)) == 2 * long_desks(width, height),
{
    if width < 2 {
        lemma_same_rows_count(filled(EMPTY, width), height);
        lemma_filled_count(EMPTY, width);
        assert(height * 0 == 0);
    } else {
        let pairs = ((width - 2) / 2) as nat;
        let half = long_block(width);
        let full = full_block(width);
        let period = long_period(width);
        let rest = height % 7;
        lemma_long_block_count(width);
        assert(half.len() == 3);
        assert(full.len() == 6);
        assert(full[0] == half[0] && full[1] == half[1] && full[2] == half[2]);
        assert(full[3] == reversed(half[2]) && full[4] == reversed(half[1]) && full[5]
            == reversed(half[0])) by {
            assert(full[3] == mirrored(half)[0]);
            assert(full[4] == mirrored(half)[1]);
            assert(full[5] == mirrored(half)[2]);
        }
        lemma_reversed_count(half[0]);
        lemma_reversed_count(half[1]);
        lemma_reversed_count(half[2]);
        assert(full.subrange(0, 0) =~= Seq::<Seq<u8>>::empty());
        assert(occupied(full.subrange(0, 0)) == 0);
        lemma_prefix_count(full, 1);
        lemma_prefix_count(full, 2);
        lemma_prefix_count(full, 3);
        lemma_prefix_count(full, 4);
        lemma_prefix_count(full, 5);
        lemma_prefix_count(full, 6);
        assert(full.subrange(0, 6) =~= full);
        assert(occupied(full) == 4 * pairs + 8);
        assert(period.drop_last() =~= full);
        lemma_filled_count(EMPTY, width);
        assert(occupied(period) == 4 * pairs + 8);
        lemma_copies_count(period, height / 7);
        let tail = long_tail(width, rest);
        lemma_rows_sum(copies(period, height / 7), tail);
        assert(occupied(tail) == 2 * long_tail_desks(width, rest)) by {
            if rest % 2 == 0 {
            } else if rest == 1 {
                lemma_single_row(grouped_row(width));
            } else {
                assert(tail.drop_last() =~= full.subrange(0, rest - 1));
            }
        }
        assert((height / 7) * (4 * pairs + 8) == 2 * ((height / 7) * (2 * pairs + 4)))
            by (nonlinear_arith);
    }
}

/// Every construction places the desks that its bookkeeping counts: the
/// strip count for the strips, the long count for the long construction, and
/// for a construction along the height the count of the twin room.
pub proof fn lemma_candidate_counts(width: nat, height: nat)
    ensures
        desks(candidate_rows(width, height, 0)) == long_desks(width, height),
        desks(candidate_rows(width, height, 1)) == long_desks(height, width),
        desks(candidate_rows(width, height, 2)) == strip_desks(width, height, 2),
        desks(candidate_rows(width, height, 3)) == strip_desks(height, width, 2),
{
    lemma_strip_count(width, height, 2);
    lemma_strip_count(height, width, 2);
    lemma_long_count(width, height);
    lemma_long_count(height, width);
    lemma_strip_rows_rect(height, width, 2);
    lemma_long_rows_rect(height, width);
    lemma_turned_count(strip_rows(height, width, 2), height, width);
    lemma_turned_count(long_rows(height, width), height, width);
}

/// Counts the desks of the long construction by its periods: so many for
/// every full period, and what the tail takes.
pub fn count_long_desks(width: usize, height: usize) -> (count: usize)
    requires
        width * height <= usize::MAX,
    ensures
        count == long_desks(width as nat, height as nat),
        2 * count == occupied(long_rows(width as nat, height as nat)),
{
    proof {
        lemma_long_count(width as nat, height as nat);
        lemma_long_rows_rect(width as nat, height as nat);
        lemma_occupied_bound(long_rows(width as nat, height as nat), width as nat, height as nat);
    }
    if width < 2 {
        return 0;
    }
    let pairs: usize = (width - 2) / 2;
    let blocks: usize = height / LONG_PERIOD;
    let rest: usize = height % LONG_PERIOD;
    let mut count: usize = 0;
    if blocks > 0 {
        assert(2 * pairs + 4 <= blocks * (2 * pairs + 4)) by (nonlinear_arith)
            requires
                blocks >= 1,
        ;
        count = blocks * (2 * pairs + 4);
    } else {
        assert(blocks * (2 * pairs + 4) == 0) by (nonlinear_arith)
            requires
                blocks == 0,
        ;
    }
    if rest == 1 {
        count += width / 3;
    } else if rest == 2 {
        count += pairs + 1;
    } else if rest == 3 {
        count += pairs + 2;
    } else if rest == 4 {
        count += pairs + 3;
    } else if rest == 5 {
        count += pairs + 4;
    } else if rest == 6 {
        count += 2 * pairs + 4;
    }
    count
}

} // verus!

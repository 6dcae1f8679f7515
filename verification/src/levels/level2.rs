//! Labeled desks of three cells in a line, and the verifier that checks any
//! labeled grid against a room without trusting where the grid came from.

use std::collections::HashSet;
use vstd::prelude::*;
use crate::grid::{cells, join, joined, line_break, CR, LF};
use crate::input::{
    next_triple, one_further, triple_at, CountedInput, FromLines, LineReader, ParseError, Subtask,
};
use crate::labels::{
    copy_labels, find_bad_row, find_left, first_bad_row, first_left, grid_text, is_table,
    labels, lemma_first_bad_row, parse_row, render_labels, row_labels, without,
};
use crate::text::{lines, split_at_every, split_on, text_lines};

verus! {

/// A room to furnish: its sides and the number of desks it must take.
#[derive(Debug, Copy, Clone, PartialEq, Eq, Structural)]
pub struct Room {
    pub width: usize,
    pub height: usize,
    pub desk_count: usize,
}

impl FromLines for Room {
    /// A room stands on one line: its width, its height and the number of
    /// desks it must take.
    open spec fn read(lines: Seq<Seq<u8>>, at: nat) -> Result<Room, ParseError> {
        match triple_at(lines, at) {
            Ok((width, height, desk_count)) => Ok(Room { width, height, desk_count }),
            Err(e) => Err(e),
        }
    }

    open spec fn after(lines: Seq<Seq<u8>>, at: nat) -> nat {
        one_further(lines, at)
    }

    fn from_lines(reader: &mut LineReader) -> (result: Result<Room, ParseError>) {
        match next_triple(reader) {
            Ok((width, height, desk_count)) => Ok(Room { width, height, desk_count }),
            Err(e) => Err(e),
        }
    }
}

impl Subtask for Room {

}

/// A batch of rooms.
pub type Input = CountedInput<Room>;

/// Why a grid is no legal placement for a room.
#[derive(Debug, Copy, Clone, PartialEq, Eq, Structural)]
pub enum VerifyError {
    /// A cell of the given row is no number.
    NotNumeric { row: usize },
    /// The grid has another number of rows than the room.
    RowCount { expected: usize, found: usize },
    /// A row has another number of cells than the room is wide.
    RowWidth { row: usize, expected: usize, found: usize },
    /// A label stands on two desks.
    DuplicateDesk { label: usize },
    /// Cells are left over whose label already stands on a whole desk.
    OversizedDesk { label: usize },
    /// Cells are left over that form no desk.
    MalformedDesk { label: usize },
    /// The grid holds another number of desks than the room asks for.
    CountMismatch { placed: usize, expected: usize },
}

/// The state of a scan: the cells not yet consumed, the labels of the desks
/// consumed so far, and the label that was met on a second desk, if any.
pub struct Scan {
    pub grid: Seq<Seq<usize>>,
    pub seen: Set<usize>,
    pub duplicate: Option<usize>,
}

/// The second cell of a desk that starts at `(r, c)`.
pub open spec fn second(r: int, c: int, down: bool) -> (int, int) {
    if down {
        (r + 1, c)
    } else {
        (r, c + 1)
    }
}

/// The third cell of a desk that starts at `(r, c)`.
pub open spec fn third(r: int, c: int, down: bool) -> (int, int) {
    if down {
        (r + 2, c)
    } else {
        (r, c + 2)
    }
}

/// Three cells in a line from `(r, c)`, across or down, share a label that
/// is not zero.
pub open spec fn desk_at(grid: Seq<Seq<usize>>, r: int, c: int, down: bool) -> bool {
    let (r1, c1) = second(r, c, down);
    let (r2, c2) = third(r, c, down);
    &&& grid[r][c] != 0
    &&& grid[r1][c1] == grid[r][c]
    &&& grid[r2][c2] == grid[r][c]
}

/// The grid with the three cells of a desk emptied.
pub open spec fn cleared(grid: Seq<Seq<usize>>, r: int, c: int, down: bool) -> Seq<Seq<usize>> {
    let (r1, c1) = second(r, c, down);
    let (r2, c2) = third(r, c, down);
    without(without(without(grid, r, c), r1, c1), r2, c2)
}

/// One step of a scan. A desk at `(r, c)` is consumed: its cells are emptied
/// and its label is recorded; a label recorded before is a duplicate. After a
/// duplicate the scan changes nothing more.
pub open spec fn step(s: Scan, r: int, c: int, down: bool) -> Scan {
    if s.duplicate is Some || !desk_at(s.grid, r, c, down) {
        s
    } else {
        let label = s.grid[r][c];
        Scan {
            grid: cleared(s.grid, r, c, down),
            seen: s.seen.insert(label),
            duplicate: if s.seen.contains(label) {
                Some(label)
            } else {
                None
            },
        }
    }
}

/// The scan of the first `cols` starting cells of row `r`.
pub open spec fn scan_row(s: Scan, r: int, cols: nat, down: bool) -> Scan
    decreases cols,
{
    if cols == 0 {
        s
    } else {
        step(scan_row(s, r, (cols - 1) as nat, down), r, cols - 1, down)
    }
}

/// The scan of the first `rows` rows, `cols` starting cells in each.
pub open spec fn scan_rows(s: Scan, rows: nat, cols: nat, down: bool) -> Scan
    decreases rows,
{
    if rows == 0 {
        s
    } else {
        scan_row(scan_rows(s, (rows - 1) as nat, cols, down), rows - 1, cols, down)
    }
}

/// The number of cells at which a desk of three cells can start along a side
/// of `side` cells.
pub open spec fn starts(side: nat) -> nat {
    if side >= 2 {
        (side - 2) as nat
    } else {
        0
    }
}

/// Both passes over a table: desks lying across are consumed row by row, then
/// desks standing upright in what is left.
pub open spec fn consumed(grid: Seq<Seq<usize>>, width: nat, height: nat) -> Scan {
    let start = Scan { grid, seen: Set::empty(), duplicate: None };
    let across = scan_rows(start, height, starts(width), false);
    scan_rows(across, starts(height), width, true)
}

/// The verdict on a grid for a room. The shape is checked first, then the
/// desks are consumed, then what is left over is judged, and last the number
/// of desks is held against the room's.
pub open spec fn verdict(room: Room, grid: Seq<Seq<usize>>) -> Result<(), VerifyError> {
    if grid.len() != room.height {
        Err(VerifyError::RowCount { expected: room.height, found: grid.len() as usize })
    } else if let Some(row) = first_bad_row(grid, room.width as nat) {
        Err(
            VerifyError::RowWidth {
                row: row as usize,
                expected: room.width,
                found: grid[row].len() as usize,
            },
        )
    } else {
        let s = consumed(grid, room.width as nat, room.height as nat);
        if let Some(label) = s.duplicate {
            Err(VerifyError::DuplicateDesk { label })
        } else if let Some(label) = first_left(s.grid) {
            if s.seen.contains(label) {
                Err(VerifyError::OversizedDesk { label })
            } else {
                Err(VerifyError::MalformedDesk { label })
            }
        } else if s.seen.len() != room.desk_count {
            Err(
                VerifyError::CountMismatch {
                    placed: s.seen.len() as usize,
                    expected: room.desk_count,
                },
            )
        } else {
            Ok(())
        }
    }
}

/// The scan that the three parts of a running verifier stand for.
pub open spec fn scan_of(
    grid: Vec<Vec<usize>>,
    seen: HashSet<usize>,
    duplicate: Option<usize>,
) -> Scan {
    Scan { grid: labels(grid), seen: seen@, duplicate }
}

/// Takes one step of a scan at `(r, c)`.
fn visit(
    grid: &mut Vec<Vec<usize>>,
    seen: &mut HashSet<usize>,
    duplicate: &mut Option<usize>,
    r: usize,
    c: usize,
    down: bool,
    width: usize,
    height: usize,
)
    requires
        is_table(labels(*old(grid)), width as nat, height as nat),
        old(seen)@.finite(),
        third(r as int, c as int, down).0 < height,
        third(r as int, c as int, down).1 < width,
    ensures
        is_table(labels(*final(grid)), width as nat, height as nat),
        final(seen)@.finite(),
        scan_of(*final(grid), *final(seen), *final(duplicate)) == step(
            scan_of(*old(grid), *old(seen), *old(duplicate)),
            r as int,
            c as int,
            down,
        ),
{
    let ghost before = labels(*grid);
    assert(before[r as int].len() == width);
    if duplicate.is_some() {
        return ;
    }
    let label: usize = grid[r][c];
    if label == 0 {
        return ;
    }
    let r1: usize = if down { r + 1 } else { r };
    let c1: usize = if down { c } else { c + 1 };
    let r2: usize = if down { r + 2 } else { r };
    let c2: usize = if down { c } else { c + 2 };
    assert(before[r1 as int].len() == width);
    assert(before[r2 as int].len() == width);
    if grid[r1][c1] != label || grid[r2][c2] != label {
        return ;
    }
    grid[r][c] = 0;
    assert(labels(*grid) =~= without(before, r as int, c as int));
    let ghost one = labels(*grid);
    grid[r1][c1] = 0;
    assert(labels(*grid) =~= without(one, r1 as int, c1 as int));
    let ghost two = labels(*grid);
    grid[r2][c2] = 0;
    assert(labels(*grid) =~= without(two, r2 as int, c2 as int));
    if seen.contains(&label) {
        *duplicate = Some(label);
    }
    seen.insert(label);
}

/// Runs one pass of a scan: `rows` rows with `cols` starting cells each.
fn pass(
    grid: &mut Vec<Vec<usize>>,
    seen: &mut HashSet<usize>,
    duplicate: &mut Option<usize>,
    rows: usize,
    cols: usize,
    down: bool,
    width: usize,
    height: usize,
)
    requires
        is_table(labels(*old(grid)), width as nat, height as nat),
        old(seen)@.finite(),
        rows > 0 && cols > 0 ==> third(rows - 1, cols - 1, down).0 < height && third(
            rows - 1,
            cols - 1,
            down,
        ).1 < width,
    ensures
        is_table(labels(*final(grid)), width as nat, height as nat),
        final(seen)@.finite(),
        scan_of(*final(grid), *final(seen), *final(duplicate)) == scan_rows(
            scan_of(*old(grid), *old(seen), *old(duplicate)),
            rows as nat,
            cols as nat,
            down,
        ),
{
    let ghost start = scan_of(*grid, *seen, *duplicate);
    let mut r: usize = 0;
    while r < rows
        invariant
            r <= rows,
            is_table(labels(*grid), width as nat, height as nat),
            seen@.finite(),
            rows > 0 && cols > 0 ==> third(rows - 1, cols - 1, down).0 < height && third(
                rows - 1,
                cols - 1,
                down,
            ).1 < width,
            scan_of(*grid, *seen, *duplicate) == scan_rows(start, r as nat, cols as nat, down),
        decreases rows - r,
    {
        let ghost row_start = scan_of(*grid, *seen, *duplicate);
        let mut c: usize = 0;
        while c < cols
            invariant
                c <= cols,
                r < rows,
                is_table(labels(*grid), width as nat, height as nat),
                seen@.finite(),
                rows > 0 && cols > 0 ==> third(rows - 1, cols - 1, down).0 < height && third(
                    rows - 1,
                    cols - 1,
                    down,
                ).1 < width,
                scan_of(*grid, *seen, *duplicate) == scan_row(
                    row_start,
                    r as int,
                    c as nat,
                    down,
                ),
            decreases cols - c,
        {
            visit(grid, seen, duplicate, r, c, down, width, height);
            c += 1;
        }
        r += 1;
    }
}

/// Runs both passes over a copy of a table.
fn scan_table(room: &Room, grid: &Vec<Vec<usize>>) -> (out: (
    Vec<Vec<usize>>,
    HashSet<usize>,
    Option<usize>,
))
    requires
        is_table(labels(*grid), room.width as nat, room.height as nat),
    ensures
        scan_of(out.0, out.1, out.2) == consumed(
            labels(*grid),
            room.width as nat,
            room.height as nat,
        ),
{
    let mut left = copy_labels(grid);
    let mut seen: HashSet<usize> = HashSet::new();
    let mut duplicate: Option<usize> = None;
    let width: usize = room.width;
    let height: usize = room.height;
    let across: usize = if width >= 2 { width - 2 } else { 0 };
    let upright: usize = if height >= 2 { height - 2 } else { 0 };
    assert(scan_of(left, seen, duplicate) == (Scan {
        grid: labels(*grid),
        seen: Set::empty(),
        duplicate: None,
    }));
    pass(&mut left, &mut seen, &mut duplicate, height, across, false, width, height);
    pass(&mut left, &mut seen, &mut duplicate, upright, width, true, width, height);
    (left, seen, duplicate)
}

/// Checks a grid of labels against a room.
pub fn verify_grid(room: &Room, grid: &Vec<Vec<usize>>) -> (result: Result<(), VerifyError>)
    ensures
        result == verdict(*room, labels(*grid)),
{
    if grid.len() != room.height {
        return Err(VerifyError::RowCount { expected: room.height, found: grid.len() });
    }
    proof {
        lemma_first_bad_row(labels(*grid), room.width as nat);
    }
    if let Some(row) = find_bad_row(grid, room.width) {
        return Err(
            VerifyError::RowWidth { row, expected: room.width, found: grid[row].len() },
        );
    }
    let (left, seen, duplicate) = scan_table(room, grid);
    if let Some(label) = duplicate {
        return Err(VerifyError::DuplicateDesk { label });
    }
    if let Some(label) = find_left(&left) {
        return if seen.contains(&label) {
            Err(VerifyError::OversizedDesk { label })
        } else {
            Err(VerifyError::MalformedDesk { label })
        };
    }
    if seen.len() != room.desk_count {
        return Err(VerifyError::CountMismatch { placed: seen.len(), expected: room.desk_count });
    }
    Ok(())
}

/// The label of a cell in the grid that `map` makes: desks lie end to end in
/// every row and are numbered from one, row by row; the cells that no whole
/// desk covers are empty.
pub open spec fn desk_label(width: nat, r: int, c: int) -> int {
    if c < 3 * (width / 3) {
        1 + r * (width / 3) + c / 3
    } else {
        0
    }
}

/// The grid that `map` makes for a room.
pub open spec fn desk_rows(width: nat, height: nat) -> Seq<Seq<usize>> {
    Seq::new(height, |r: int| Seq::new(width, |c: int| desk_label(width, r, c) as usize))
}

/// The number of desks that `map` places.
pub open spec fn desk_total(width: nat, height: nat) -> nat {
    height * (width / 3)
}

/// Every label of the grid is at most the number of desks, which fits the
/// machine's integers whenever the room's area does.
pub proof fn lemma_desk_label_bound(width: nat, height: nat, r: int, c: int)
    requires
        0 <= r < height,
        0 <= c < width,
        width * height <= usize::MAX,
    ensures
        0 <= desk_label(width, r, c) <= desk_total(width, height) < usize::MAX,
        r * (width / 3) + (width / 3) <= desk_total(width, height),
{
    let per_row = width / 3;
    assert(r * per_row + per_row <= height * per_row && 0 <= r * per_row) by (nonlinear_arith)
        requires
            0 <= r < height,
            0 <= per_row,
    ;
    assert(height * per_row * 3 <= width * height) by (nonlinear_arith)
        requires
            per_row * 3 <= width,
            0 <= height,
    ;
}

/// In the grid that `map` makes, two cells carry the same label that is not
/// zero exactly when they belong to the same desk: they lie in one row, in
/// the same group of three neighbouring columns. So every occupied cell
/// belongs to exactly one group of three cells in a line, and the groups are
/// numbered from one to the number of desks.
pub proof fn lemma_desks_are_triples(width: nat, height: nat, r: int, c: int, r2: int, c2: int)
    requires
        0 <= r < height,
        0 <= c < width,
        0 <= r2 < height,
        0 <= c2 < width,
        desk_label(width, r, c) != 0,
    ensures
        c < 3 * (width / 3),
        1 <= desk_label(width, r, c) <= desk_total(width, height),
        desk_label(width, r, c) == desk_label(width, r, 3 * (c / 3)),
        desk_label(width, r, c) == desk_label(width, r, 3 * (c / 3) + 1),
        desk_label(width, r, c) == desk_label(width, r, 3 * (c / 3) + 2),
        desk_label(width, r2, c2) == desk_label(width, r, c) <==> r2 == r && c2 / 3 == c / 3,
{
    let per_row = (width / 3) as int;
    assert(0 <= r * per_row && r * per_row + per_row <= height * per_row) by (nonlinear_arith)
        requires
            0 <= r < height,
            0 <= per_row,
    ;
    if c2 < 3 * per_row && r2 != r {
        let a = c / 3;
        let b = c2 / 3;
        assert(r * per_row + a != r2 * per_row + b) by (nonlinear_arith)
            requires
                r != r2,
                0 <= a < per_row,
                0 <= b < per_row,
        ;
    }
    if c2 >= 3 * per_row {
        assert(0 <= r * per_row) by (nonlinear_arith)
            requires
                0 <= r,
                0 <= per_row,
        ;
    }
}

/// Places the desks of a room: desks of three cells end to end in every row,
/// numbered from one.
pub fn place_desks(room: &Room) -> (grid: Vec<Vec<usize>>)
    requires
        room.width * room.height <= usize::MAX,
    ensures
        labels(grid) == desk_rows(room.width as nat, room.height as nat),
        is_table(labels(grid), room.width as nat, room.height as nat),
{
    let width: usize = room.width;
    let height: usize = room.height;
    let per_row: usize = width / 3;
    let mut id: usize = 1;
    let mut grid: Vec<Vec<usize>> = Vec::new();
    let mut r: usize = 0;
    while r < height
        invariant
            r <= height,
            per_row == width / 3,
            width * height <= usize::MAX,
            id == 1 + r * per_row,
            grid.len() == r,
            forall|i: int|
                0 <= i < r ==> (#[trigger] grid[i])@ == desk_rows(width as nat, height as nat)[i],
        decreases height - r,
    {
        let mut row: Vec<usize> = Vec::new();
        let mut d: usize = 0;
        proof {
            if width > 0 {
                lemma_desk_label_bound(width as nat, height as nat, r as int, 0);
            }
        }
        while d < per_row
            invariant
                d <= per_row,
                r < height,
                per_row == width / 3,
                r * per_row + per_row < usize::MAX,
                id == 1 + r * per_row + d,
                row.len() == 3 * d,
                forall|k: int|
                    0 <= k < 3 * d ==> (#[trigger] row[k]) == desk_label(
                        width as nat,
                        r as int,
                        k,
                    ),
            decreases per_row - d,
        {
            row.push(id);
            row.push(id);
            row.push(id);
            id += 1;
            d += 1;
        }
        while row.len() < width
            invariant
                3 * per_row <= row.len() <= width,
                per_row == width / 3,
                forall|k: int|
                    0 <= k < row.len() ==> (#[trigger] row[k]) == desk_label(
                        width as nat,
                        r as int,
                        k,
                    ),
            decreases width - row.len(),
        {
            row.push(0);
        }
        assert(row@ =~= desk_rows(width as nat, height as nat)[r as int]);
        grid.push(row);
        assert((r + 1) * per_row == r * per_row + per_row) by (nonlinear_arith);
        r += 1;
    }
    assert(labels(grid) =~= desk_rows(width as nat, height as nat));
    grid
}

/// Furnishes a room and renders the grid, with a line break after the last
/// row.
pub fn map(room: &Room) -> (text: Vec<u8>)
    requires
        room.width * room.height <= usize::MAX,
    ensures
        text@ == grid_text(desk_rows(room.width as nat, room.height as nat)) + line_break(),
{
    let grid = place_desks(room);
    let mut text = render_labels(&grid);
    text.push(CR);
    text.push(LF);
    assert(text@ =~= grid_text(desk_rows(room.width as nat, room.height as nat))
        + line_break());
    text
}

/// Puts the texts of the rooms of a batch together, a line break between
/// neighbours.
pub fn reduce(results: Vec<Vec<u8>>) -> (text: Vec<u8>)
    ensures
        text@ == joined(cells(results), line_break()),
{
    let mut sep: Vec<u8> = Vec::new();
    sep.push(CR);
    sep.push(LF);
    assert(sep@ =~= line_break());
    join(&results, &sep)
}

/// What is wrong with one line of a grid's text, if anything: it holds a
/// field that is no number, or another number of labels than the room is
/// wide.
pub open spec fn row_fault(room: Room, line: Seq<u8>, r: int) -> Option<VerifyError> {
    match row_labels(line) {
        None => Some(VerifyError::NotNumeric { row: r as usize }),
        Some(row) => if row.len() != room.width {
            Some(
                VerifyError::RowWidth {
                    row: r as usize,
                    expected: room.width,
                    found: row.len() as usize,
                },
            )
        } else {
            None
        },
    }
}

/// The fault of the first line that has one.
pub open spec fn first_fault(room: Room, lines: Seq<Seq<u8>>) -> Option<VerifyError>
    decreases lines.len(),
{
    if lines.len() == 0 {
        None
    } else {
        match first_fault(room, lines.drop_last()) {
            Some(fault) => Some(fault),
            None => row_fault(room, lines.last(), lines.len() - 1),
        }
    }
}

/// The grid of labels that the lines of a text stand for.
pub open spec fn table_of(lines: Seq<Seq<u8>>) -> Seq<Seq<usize>> {
    Seq::new(lines.len(), |i: int| row_labels(lines[i])->0)
}

/// The verdict on the text of a grid for a room. The number of lines is held
/// against the room's height before any label is read; then the lines are
/// read in their order, and the first faulty line decides; a text without a
/// fault is judged as the grid it stands for.
pub open spec fn text_verdict(room: Room, text: Seq<u8>) -> Result<(), VerifyError> {
    let lines = text_lines(text);
    if lines.len() != room.height {
        Err(VerifyError::RowCount { expected: room.height, found: lines.len() as usize })
    } else if let Some(fault) = first_fault(room, lines) {
        Err(fault)
    } else {
        verdict(room, table_of(lines))
    }
}

/// Checks the text of a grid against a room.
pub fn verify(input: &Room, output: &[u8]) -> (result: Result<(), VerifyError>)
    ensures
        result == text_verdict(*input, output@),
{
    let rows = lines(output);
    if rows.len() != input.height {
        return Err(VerifyError::RowCount { expected: input.height, found: rows.len() });
    }
    let ghost all = text_lines(output@);
    let mut grid: Vec<Vec<usize>> = Vec::new();
    let mut fault: Option<VerifyError> = None;
    let mut r: usize = 0;
    assert(all.subrange(0, 0) =~= Seq::<Seq<u8>>::empty());
    assert(labels(grid) =~= table_of(all.subrange(0, 0)));
    while r < rows.len()
        invariant
            r <= rows.len(),
            cells(rows) == all,
            fault == first_fault(*input, all.subrange(0, r as int)),
            fault is None ==> labels(grid) == table_of(all.subrange(0, r as int)),
        decreases rows.len() - r,
    {
        assert(all.subrange(0, r + 1).drop_last() =~= all.subrange(0, r as int));
        assert(all.subrange(0, r + 1).last() == rows[r as int]@);
        if fault.is_none() {
            let ghost had = labels(grid);
            match parse_row(&rows[r]) {
                None => {
                    fault = Some(VerifyError::NotNumeric { row: r });
                },
                Some(row) => {
                    if row.len() != input.width {
                        fault = Some(
                            VerifyError::RowWidth {
                                row: r,
                                expected: input.width,
                                found: row.len(),
                            },
                        );
                    } else {
                        grid.push(row);
                        assert(labels(grid) =~= had.push(row@));
                        assert(table_of(all.subrange(0, r + 1)) =~= table_of(
                            all.subrange(0, r as int),
                        ).push(row@)) by {
                            let next = table_of(all.subrange(0, r + 1));
                            let prev = table_of(all.subrange(0, r as int));
                            assert(next.len() == prev.len() + 1);
                            assert forall|k: int| 0 <= k < next.len() implies next[k]
                                == prev.push(row@)[k] by {
                                if k < r {
                                    assert(all.subrange(0, r + 1)[k] == all.subrange(
                                        0,
                                        r as int,
                                    )[k]);
                                }
                            }
                        }
                    }
                },
            }
        }
        r += 1;
    }
    assert(all.subrange(0, rows.len() as int) =~= all);
    match fault {
        Some(fault) => Err(fault),
        None => verify_grid(input, &grid),
    }
}

/// The grids of a worked example: the pieces of its text between empty
/// lines.
pub fn split_example(input: &[u8]) -> (grids: Vec<Vec<u8>>)
    ensures
        cells(grids) == split_on(input@, seq![CR, LF, CR, LF]),
{
    let mut sep: Vec<u8> = Vec::new();
    sep.push(CR);
    sep.push(LF);
    sep.push(CR);
    sep.push(LF);
    assert(sep@ =~= seq![CR, LF, CR, LF]);
    split_at_every(input, sep.as_slice())
}

/// A desk whose label was consumed before is a duplicate: the step that
/// consumes it names its label.
pub proof fn lemma_seen_again_is_duplicate(s: Scan, r: int, c: int, down: bool)
    requires
        s.duplicate is None,
        desk_at(s.grid, r, c, down),
        s.seen.contains(s.grid[r][c]),
    ensures
        step(s, r, c, down).duplicate == Some(s.grid[r][c]),
{
}

/// A duplicate, once met, stays to the end of a row.
pub proof fn lemma_duplicate_stays_in_row(s: Scan, r: int, cols: nat, down: bool)
    requires
        s.duplicate is Some,
    ensures
        scan_row(s, r, cols, down) == s,
    decreases cols,
{
    if cols > 0 {
        lemma_duplicate_stays_in_row(s, r, (cols - 1) as nat, down);
    }
}

/// A duplicate, once met, stays to the end of a pass.
pub proof fn lemma_duplicate_stays(s: Scan, rows: nat, cols: nat, down: bool)
    requires
        s.duplicate is Some,
    ensures
        scan_rows(s, rows, cols, down) == s,
    decreases rows,
{
    if rows > 0 {
        lemma_duplicate_stays(s, (rows - 1) as nat, cols, down);
        lemma_duplicate_stays_in_row(s, rows - 1, cols, down);
    }
}

/// A label met on a second desk decides the verdict on a table: the grid
/// fails with the error that names the label, and with that error only then.
pub proof fn lemma_duplicate_decides(room: Room, grid: Seq<Seq<usize>>)
    requires
        is_table(grid, room.width as nat, room.height as nat),
    ensures
        consumed(grid, room.width as nat, room.height as nat).duplicate matches Some(label)
            ==> verdict(room, grid) == Err::<(), VerifyError>(
            VerifyError::DuplicateDesk { label },
        ),
        verdict(room, grid) matches Err(VerifyError::DuplicateDesk { label }) ==> consumed(
            grid,
            room.width as nat,
            room.height as nat,
        ).duplicate == Some(label),
{
    lemma_first_bad_row(grid, room.width as nat);
}

/// The labels of the desks that the verifier consumes in a grid.
pub fn consumed_labels(room: &Room, grid: &Vec<Vec<usize>>) -> (seen: HashSet<usize>)
    requires
        is_table(labels(*grid), room.width as nat, room.height as nat),
    ensures
        seen@ == consumed(labels(*grid), room.width as nat, room.height as nat).seen,
{
    let (_, seen, _) = scan_table(room, grid);
    seen
}

/// Verifying a grid again gives the same verdict and the same consumed
/// labels: the verifier leaves the grid as it was, and both outcomes depend
/// on the room and the grid alone.
pub proof fn lemma_verifier_repeatable(
    room: Room,
    grid: Seq<Seq<usize>>,
    first: (Result<(), VerifyError>, Set<usize>),
    second: (Result<(), VerifyError>, Set<usize>),
)
    requires
        first.0 == verdict(room, grid),
        first.1 == consumed(grid, room.width as nat, room.height as nat).seen,
        second.0 == verdict(room, grid),
        second.1 == consumed(grid, room.width as nat, room.height as nat).seen,
    ensures
        first == second,
{
}

} // verus!

//! Labeled desks of three cells that fill the room in bands of three rows:
//! desks lie end to end across each band, and the columns that no lying desk
//! reaches take desks standing upright.

use vstd::prelude::*;
use crate::grid::{cells, join, joined, CR, LF};
use crate::input::{batch_of, read_rooms, BatchError};
use crate::labels::{grid_text, labels, render_labels};

verus! {

/// A room to furnish: its sides and the number of desks it must take.
#[derive(Debug, Copy, Clone, PartialEq, Eq, Structural)]
pub struct Room {
    pub width: usize,
    pub height: usize,
    pub desk_count: usize,
}

/// `count` desks lying end to end, labeled from `first` on.
pub open spec fn lying_desks(first: int, count: nat) -> Seq<usize> {
    Seq::new(3 * count, |k: int| (first + k / 3) as usize)
}

/// `count` cells of desks standing side by side, labeled from `first` on.
pub open spec fn upright_cells(first: int, count: nat) -> Seq<usize> {
    Seq::new(count, |k: int| (first + k) as usize)
}

/// `count` empty cells.
pub open spec fn no_desks(count: nat) -> Seq<usize> {
    Seq::new(count, |k: int| 0usize)
}

/// Row `r` of the grid for a room. A band of three rows uses as many labels
/// as the room is wide: three rows of lying desks, then the upright desks of
/// the last columns. The rows below the last band take lying desks only.
pub open spec fn table_row(width: nat, height: nat, r: int) -> Seq<usize> {
    let per_row = width / 3;
    let bands = height / 3;
    if r < 3 * bands {
        let base = 1 + (r / 3) * width;
        lying_desks(base + (r % 3) * per_row, per_row) + upright_cells(
            base + 3 * per_row,
            width % 3,
        )
    } else {
        lying_desks(1 + bands * width + (r - 3 * bands) * per_row, per_row) + no_desks(
            width % 3,
        )
    }
}

/// The grid for a room.
pub open spec fn table_rows(width: nat, height: nat) -> Seq<Seq<usize>> {
    Seq::new(height, |r: int| table_row(width, height, r))
}

/// The text of a batch: the grids with an empty line between neighbours.
pub open spec fn batch_text(rooms: Seq<Room>) -> Seq<u8> {
    joined(
        Seq::new(
            rooms.len(),
            |i: int| grid_text(table_rows(rooms[i].width as nat, rooms[i].height as nat)),
        ),
        seq![CR, LF, CR, LF],
    )
}

/// Appends `count` lying desks labeled from `first` on.
fn push_desks(row: &mut Vec<usize>, first: usize, count: usize)
    requires
        first + count <= usize::MAX,
    ensures
        final(row)@ == old(row)@ + lying_desks(first as int, count as nat),
{
    let ghost before = row@;
    let mut d: usize = 0;
    assert(row@ =~= before + lying_desks(first as int, 0));
    while d < count
        invariant
            d <= count,
            first + count <= usize::MAX,
            row@ == before + lying_desks(first as int, d as nat),
        decreases count - d,
    {
        let label: usize = first + d;
        row.push(label);
        row.push(label);
        row.push(label);
        d += 1;
        assert(row@ =~= before + lying_desks(first as int, d as nat));
    }
}

/// Appends `count` cells labeled from `first` on, or `count` empty cells.
fn push_cells(row: &mut Vec<usize>, first: usize, count: usize, empty: bool)
    requires
        empty || first + count <= usize::MAX,
    ensures
        final(row)@ == old(row)@ + if empty {
            no_desks(count as nat)
        } else {
            upright_cells(first as int, count as nat)
        },
{
    let ghost before = row@;
    let mut k: usize = 0;
    assert(row@ =~= before + no_desks(0));
    assert(row@ =~= before + upright_cells(first as int, 0));
    while k < count
        invariant
            k <= count,
            empty || first + count <= usize::MAX,
            row@ == before + if empty {
                no_desks(k as nat)
            } else {
                upright_cells(first as int, k as nat)
            },
        decreases count - k,
    {
        if empty {
            row.push(0);
        } else {
            row.push(first + k);
        }
        k += 1;
        assert(row@ =~= before + if empty {
            no_desks(k as nat)
        } else {
            upright_cells(first as int, k as nat)
        });
    }
}

/// The labels of a room stay inside the machine's integers whenever the
/// room's area does: after `bands` bands and `rest` rows below them the next
/// free label is at most the area.
pub proof fn lemma_labels_fit(width: nat, height: nat, bands: nat, rest: nat)
    requires
        width * height <= usize::MAX,
        3 * bands + rest <= height,
        rest <= 2,
        width >= 1,
        height >= 1,
    ensures
        bands * width + rest * (width / 3) + 1 <= usize::MAX,
        0 <= bands * width,
{
    let per_row = width / 3;
    assert(3 * (bands * width) + rest * width <= width * height) by (nonlinear_arith)
        requires
            3 * bands + rest <= height,
            0 <= width,
    ;
    assert(rest * per_row <= 2 * per_row) by (nonlinear_arith)
        requires
            rest <= 2,
            0 <= per_row,
    ;
    assert(rest * width >= rest * per_row) by (nonlinear_arith)
        requires
            width >= per_row,
            0 <= rest,
    ;
    assert(0 <= bands * width) by (nonlinear_arith)
        requires
            0 <= bands,
            0 <= width,
    ;
    if bands == 0 && rest == 0 {
    } else if bands >= 1 {
        assert(bands * width >= width) by (nonlinear_arith)
            requires
                bands >= 1,
                0 <= width,
        ;
    } else {
        assert(rest * width >= width) by (nonlinear_arith)
            requires
                rest >= 1,
                0 <= width,
        ;
    }
}

/// The label of a cell of the grid in closed form: zero for an empty cell.
pub open spec fn table_label(width: nat, height: nat, r: int, c: int) -> int {
    let per_row = width / 3;
    let bands = height / 3;
    if r < 3 * bands {
        if c < 3 * per_row {
            1 + (r / 3) * width + (r % 3) * per_row + c / 3
        } else {
            1 + (r / 3) * width + c
        }
    } else if c < 3 * per_row {
        1 + bands * width + (r - 3 * bands) * per_row + c / 3
    } else {
        0
    }
}

/// Whether two cells belong to the same desk: the same three neighbouring
/// columns of one row for a lying desk, the same column of one band for an
/// upright desk.
pub open spec fn same_desk(width: nat, height: nat, r: int, c: int, r2: int, c2: int) -> bool {
    if c < 3 * (width / 3) {
        r2 == r && c2 < 3 * (width / 3) && c2 / 3 == c / 3
    } else {
        c2 == c && r < 3 * (height / 3) && r2 < 3 * (height / 3) && r2 / 3 == r / 3
    }
}

/// Two numbers written with the same base and digits below the base are
/// equal only digit by digit.
proof fn lemma_digits_agree(a: int, x: int, b: int, y: int, base: int)
    requires
        0 <= x < base,
        0 <= y < base,
        a * base + x == b * base + y,
    ensures
        a == b,
        x == y,
{
    assert(a == b) by (nonlinear_arith)
        requires
            0 <= x < base,
            0 <= y < base,
            a * base + x == b * base + y,
    ;
    assert(a * base == b * base);
}

/// The position of a label in its room: the band, or the rows below the
/// last band, and the place inside, which is less than the width.
proof fn lemma_label_place(width: nat, height: nat, r: int, c: int) -> (place: (int, int))
    requires
        0 <= r < height,
        0 <= c < width,
        table_label(width, height, r, c) != 0,
    ensures
        table_label(width, height, r, c) == 1 + place.0 * width + place.1,
        0 <= place.1 < width,
        place.0 == if r < 3 * (height / 3) {
            r / 3
        } else {
            (height / 3) as int
        },
        place.1 == if c >= 3 * (width / 3) {
            c
        } else if r < 3 * (height / 3) {
            (r % 3) * (width / 3) + c / 3
        } else {
            (r - 3 * (height / 3)) * (width / 3) + c / 3
        },
{
    let per_row = (width / 3) as int;
    let bands = (height / 3) as int;
    let row = if r < 3 * bands {
        r % 3
    } else {
        r - 3 * bands
    };
    assert(0 <= row * per_row && row * per_row + per_row <= 3 * per_row) by (nonlinear_arith)
        requires
            0 <= row < 3,
            0 <= per_row,
    ;
    if r < 3 * bands {
        if c < 3 * per_row {
            (r / 3, row * per_row + c / 3)
        } else {
            (r / 3, c)
        }
    } else {
        (bands, row * per_row + c / 3)
    }
}

/// The grid holds the labels of the closed form, and every label is at most
/// the room's area.
pub proof fn lemma_table_cell(width: nat, height: nat, r: int, c: int)
    requires
        0 <= r < height,
        0 <= c < width,
        width * height <= usize::MAX,
    ensures
        table_rows(width, height)[r].len() == width,
        table_rows(width, height)[r][c] == table_label(width, height, r, c),
        0 <= table_label(width, height, r, c) <= width * height,
{
    let per_row = width / 3;
    let bands = height / 3;
    let row = if r < 3 * bands {
        r % 3
    } else {
        r - 3 * bands
    };
    assert(0 <= row * per_row && row * per_row + per_row <= 3 * per_row) by (nonlinear_arith)
        requires
            0 <= row < 3,
            0 <= per_row,
    ;
    let band = if r < 3 * bands {
        r / 3
    } else {
        bands as int
    };
    let reach = if r < 3 * bands {
        band + 1
    } else {
        band + row + 1
    };
    assert(0 <= band * width && reach * width <= height * width && reach * width == band * width
        + (reach - band) * width) by (nonlinear_arith)
        requires
            0 <= band <= reach <= height,
            0 <= width,
    ;
    assert((row + 1) * width >= row * per_row + per_row) by (nonlinear_arith)
        requires
            0 <= row,
            width >= per_row,
            per_row >= 0,
    ;
    assert(1 * width == width);
    assert(height * width == width * height) by (nonlinear_arith);
    assert(0 <= table_label(width, height, r, c) <= width * height);
}

/// In the grid of a room, two cells carry the same label that is not zero
/// exactly when they belong to the same desk. So every occupied cell belongs
/// to exactly one group of three cells in a line: a lying desk fills three
/// neighbouring columns of its row, an upright desk the three rows of its
/// band.
pub proof fn lemma_tables_are_triples(
    width: nat,
    height: nat,
    r: int,
    c: int,
    r2: int,
    c2: int,
)
    requires
        0 <= r < height,
        0 <= c < width,
        0 <= r2 < height,
        0 <= c2 < width,
        table_label(width, height, r, c) != 0,
    ensures
        table_label(width, height, r2, c2) == table_label(width, height, r, c) <==> same_desk(
            width,
            height,
            r,
            c,
            r2,
            c2,
        ),
{
    let per_row = (width / 3) as int;
    let bands = (height / 3) as int;
    let place = lemma_label_place(width, height, r, c);
    if table_label(width, height, r2, c2) == table_label(width, height, r, c) {
        let other = lemma_label_place(width, height, r2, c2);
        lemma_digits_agree(place.0, place.1, other.0, other.1, width as int);
        let row = if r < 3 * bands {
            r % 3
        } else {
            r - 3 * bands
        };
        let row2 = if r2 < 3 * bands {
            r2 % 3
        } else {
            r2 - 3 * bands
        };
        assert(0 <= row * per_row && row * per_row + per_row <= 3 * per_row) by (nonlinear_arith)
            requires
                0 <= row < 3,
                0 <= per_row,
        ;
        assert(0 <= row2 * per_row && row2 * per_row + per_row <= 3 * per_row)
            by (nonlinear_arith)
            requires
                0 <= row2 < 3,
                0 <= per_row,
        ;
        if c < 3 * per_row {
            assert(c2 < 3 * per_row);
            lemma_digits_agree(row, c / 3, row2, c2 / 3, per_row);
        } else {
            assert(c2 >= 3 * per_row);
        }
        assert(same_desk(width, height, r, c, r2, c2));
    }
    if same_desk(width, height, r, c, r2, c2) {
        assert(table_label(width, height, r2, c2) == table_label(width, height, r, c));
    }
}

impl Room {
    /// Places the desks of the room.
    pub fn place_tables(&self) -> (grid: Vec<Vec<usize>>)
        requires
            self.width * self.height <= usize::MAX,
        ensures
            labels(grid) == table_rows(self.width as nat, self.height as nat),
    {
        let width: usize = self.width;
        let height: usize = self.height;
        let per_row: usize = width / 3;
        let corner: usize = width % 3;
        let bands: usize = height / 3;
        let rest: usize = height % 3;
        let mut grid: Vec<Vec<usize>> = Vec::new();
        if width == 0 {
            while grid.len() < height
                invariant
                    width == 0,
                    grid.len() <= height,
                    forall|i: int|
                        0 <= i < grid.len() ==> (#[trigger] grid[i])@ == table_row(
                            width as nat,
                            height as nat,
                            i,
                        ),
                decreases height - grid.len(),
            {
                let row: Vec<usize> = Vec::new();
                assert(row@ =~= table_row(width as nat, height as nat, grid.len() as int));
                grid.push(row);
            }
            assert(labels(grid) =~= table_rows(width as nat, height as nat));
            return grid;
        }
        let mut next: usize = 1;
        let mut b: usize = 0;
        while b < bands
            invariant
                b <= bands,
                width >= 1,
                per_row == width / 3,
                corner == width % 3,
                bands == height / 3,
                width * height <= usize::MAX,
                next == 1 + b * width,
                grid.len() == 3 * b,
                forall|i: int|
                    0 <= i < grid.len() ==> (#[trigger] grid[i])@ == table_row(
                        width as nat,
                        height as nat,
                        i,
                    ),
            decreases bands - b,
        {
            proof {
                lemma_labels_fit(width as nat, height as nat, (b + 1) as nat, 0);
                assert((b + 1) * width == b * width + width) by (nonlinear_arith);
            }
            let base: usize = next;
            let corner_first: usize = base + 3 * per_row;
            let mut j: usize = 0;
            while j < 3
                invariant
                    j <= 3,
                    b < bands,
                    per_row == width / 3,
                    corner == width % 3,
                    bands == height / 3,
                    base == 1 + b * width,
                    base + width <= usize::MAX,
                    corner_first == base + 3 * per_row,
                    next == base + j * per_row,
                    grid.len() == 3 * b + j,
                    forall|i: int|
                        0 <= i < grid.len() ==> (#[trigger] grid[i])@ == table_row(
                            width as nat,
                            height as nat,
                            i,
                        ),
                decreases 3 - j,
            {
                assert(j * per_row + per_row <= 3 * per_row) by (nonlinear_arith)
                    requires
                        j < 3,
                        0 <= per_row,
                ;
                assert((j + 1) * per_row == j * per_row + per_row) by (nonlinear_arith);
                let mut row: Vec<usize> = Vec::new();
                push_desks(&mut row, next, per_row);
                push_cells(&mut row, corner_first, corner, false);
                proof {
                    let r = 3 * b + j;
                    assert(r / 3 == b && r % 3 == j);
                    assert(row@ =~= table_row(width as nat, height as nat, r as int));
                }
                grid.push(row);
                next += per_row;
                j += 1;
            }
            next += corner;
            b += 1;
        }
        let mut j: usize = 0;
        while j < rest
            invariant
                j <= rest,
                rest == height % 3,
                width >= 1,
                per_row == width / 3,
                corner == width % 3,
                bands == height / 3,
                width * height <= usize::MAX,
                next == 1 + bands * width + j * per_row,
                grid.len() == 3 * bands + j,
                forall|i: int|
                    0 <= i < grid.len() ==> (#[trigger] grid[i])@ == table_row(
                        width as nat,
                        height as nat,
                        i,
                    ),
            decreases rest - j,
        {
            proof {
                lemma_labels_fit(width as nat, height as nat, bands as nat, (j + 1) as nat);
                assert((j + 1) * per_row == j * per_row + per_row) by (nonlinear_arith);
            }
            let mut row: Vec<usize> = Vec::new();
            push_desks(&mut row, next, per_row);
            push_cells(&mut row, 0, corner, true);
            proof {
                let r = 3 * bands + j;
                assert(row@ =~= table_row(width as nat, height as nat, r as int));
            }
            grid.push(row);
            next += per_row;
            j += 1;
        }
        assert(labels(grid) =~= table_rows(width as nat, height as nat));
        grid
    }

    /// Furnishes the room and renders the grid.
    pub fn generate_room_table_matrix(&self) -> (text: Vec<u8>)
        requires
            self.width * self.height <= usize::MAX,
        ensures
            text@ == grid_text(table_rows(self.width as nat, self.height as nat)),
    {
        let grid = self.place_tables();
        render_labels(&grid)
    }
}

/// Furnishes every room of a batch and renders the grids, an empty line
/// between neighbours.
pub fn furnish(rooms: &Vec<Room>) -> (text: Vec<u8>)
    requires
        forall|i: int|
            0 <= i < rooms.len() ==> (#[trigger] rooms[i]).width * rooms[i].height <= usize::MAX,
    ensures
        text@ == batch_text(rooms@),
{
    let mut texts: Vec<Vec<u8>> = Vec::new();
    let mut i: usize = 0;
    while i < rooms.len()
        invariant
            i <= rooms.len(),
            forall|i: int|
                0 <= i < rooms.len() ==> (#[trigger] rooms[i]).width * rooms[i].height
                    <= usize::MAX,
            texts.len() == i,
            forall|k: int|
                0 <= k < i ==> (#[trigger] texts[k])@ == grid_text(
                    table_rows(rooms[k].width as nat, rooms[k].height as nat),
                ),
        decreases rooms.len() - i,
    {
        texts.push(rooms[i].generate_room_table_matrix());
        i += 1;
    }
    let mut sep: Vec<u8> = Vec::new();
    sep.push(CR);
    sep.push(LF);
    sep.push(CR);
    sep.push(LF);
    assert(sep@ =~= seq![CR, LF, CR, LF]);
    assert(cells(texts) =~= Seq::new(
        rooms@.len(),
        |i: int| grid_text(table_rows(rooms@[i].width as nat, rooms@[i].height as nat)),
    ));
    join(&texts, &sep)
}

/// The rooms that the lines of a batch stand for.
pub open spec fn rooms_of(listed: Seq<(usize, usize, usize)>) -> Seq<Room> {
    Seq::new(
        listed.len(),
        |i: int| Room { width: listed[i].0, height: listed[i].1, desk_count: listed[i].2 },
    )
}

/// Makes rooms of what the lines of a batch gave.
pub fn make_rooms(listed: &Vec<(usize, usize, usize)>) -> (rooms: Vec<Room>)
    ensures
        rooms@ == rooms_of(listed@),
{
    let mut rooms: Vec<Room> = Vec::new();
    let mut i: usize = 0;
    while i < listed.len()
        invariant
            i <= listed.len(),
            rooms@ == rooms_of(listed@.subrange(0, i as int)),
        decreases listed.len() - i,
    {
        rooms.push(Room { width: listed[i].0, height: listed[i].1, desk_count: listed[i].2 });
        i += 1;
        assert(rooms@ =~= rooms_of(listed@.subrange(0, i as int)));
    }
    assert(listed@.subrange(0, listed.len() as int) =~= listed@);
    rooms
}

/// Reads a batch of rooms from its text, furnishes every room and renders
/// the grids.
pub fn run(input: &[u8]) -> (result: Result<Vec<u8>, BatchError>)
    ensures
        match batch_of(input@) {
            Ok(listed) => result matches Ok(text) && text@ == batch_text(rooms_of(listed)),
            Err(e) => result == Err::<Vec<u8>, BatchError>(e),
        },
{
    let listed = match read_rooms(input) {
        Ok(listed) => listed,
        Err(e) => {
            return Err(e);
        },
    };
    let rooms = make_rooms(&listed);
    Ok(furnish(&rooms))
}

} // verus!

//! Desks of three cells drawn as occupied cells: strips of upright desks in
//! every other column, and a row of lying desks where too few rows are left.

use vstd::prelude::*;
use crate::grid::{cells, extend_row, join, joined, line_break, render, CR, LF};
use crate::input::{listed, read_batch, ParseError};
use crate::pattern::{build_strip_rows, strip_rows};

verus! {

/// The number of cells of a desk in this variant.
pub const DESK_CELLS: usize = 3;

/// A room to furnish: its sides and the number of desks it must take.
#[derive(Debug, Copy, Clone, PartialEq, Eq, Structural)]
pub struct Room {
    pub width: usize,
    pub height: usize,
    pub desk_count: usize,
}

/// The text of one room: the rows of its strip construction.
pub open spec fn room_text(room: Room) -> Seq<u8> {
    joined(strip_rows(room.width as nat, room.height as nat, 3), line_break())
}

/// The text of a batch: the grids with an empty line between neighbours and
/// after the last one.
pub open spec fn batch_text(rooms: Seq<Room>) -> Seq<u8> {
    joined(Seq::new(rooms.len(), |i: int| room_text(rooms[i])), seq![CR, LF, CR, LF]) + seq![
        CR,
        LF,
        CR,
        LF,
    ]
}

impl Room {
    /// Furnishes the room by the strip construction and renders the grid.
    pub fn generate_room_table_matrix(&self) -> (text: Vec<u8>)
        ensures
            text@ == room_text(*self),
    {
        let rows = build_strip_rows(self.width, self.height, DESK_CELLS);
        render(&rows)
    }
}

/// Furnishes every room of a batch and renders the grids.
pub fn furnish(rooms: &Vec<Room>) -> (text: Vec<u8>)
    ensures
        text@ == batch_text(rooms@),
{
    let mut texts: Vec<Vec<u8>> = Vec::new();
    let mut i: usize = 0;
    while i < rooms.len()
        invariant
            i <= rooms.len(),
            texts.len() == i,
            forall|k: int| 0 <= k < i ==> (#[trigger] texts[k])@ == room_text(rooms[k]),
        decreases rooms.len() - i,
    {
        texts.push(rooms[i].generate_room_table_matrix());
        i += 1;
    }
    let mut sep: Vec<u8> = Vec::new();
    sep.push(CR);
    sep.push(LF);
    sep.push(CR);
    sep.push(LF);
    assert(sep@ =~= seq![CR, LF, CR, LF]);
    assert(cells(texts) =~= Seq::new(rooms@.len(), |i: int| room_text(rooms@[i])));
    let mut text = join(&texts, &sep);
    extend_row(&mut text, &sep);
    text
}

/// The rooms that the lines of a batch stand for.
pub open spec fn rooms_of(listed: Seq<(usize, usize, usize)>) -> Seq<Room> {
    Seq::new(
        listed.len(),
        |i: int| Room { width: listed[i].0, height: listed[i].1, desk_count: listed[i].2 },
    )
}

/// Makes rooms of what the lines of a batch gave.
pub fn make_rooms(listed: &Vec<(usize, usize, usize)>) -> (rooms: Vec<Room>)
    ensures
        rooms@ == rooms_of(listed@),
{
    let mut rooms: Vec<Room> = Vec::new();
    let mut i: usize = 0;
    while i < listed.len()
        invariant
            i <= listed.len(),
            rooms@ == rooms_of(listed@.subrange(0, i as int)),
        decreases listed.len() - i,
    {
        rooms.push(Room { width: listed[i].0, height: listed[i].1, desk_count: listed[i].2 });
        i += 1;
        assert(rooms@ =~= rooms_of(listed@.subrange(0, i as int)));
    }
    assert(listed@.subrange(0, listed.len() as int) =~= listed@);
    rooms
}

/// Reads a batch of rooms from its text, furnishes every room and renders
/// the grids.
pub fn run(input: &[u8]) -> (result: Result<Vec<u8>, ParseError>)
    ensures
        match listed(input@) {
            Ok(found) => result matches Ok(text) && text@ == batch_text(rooms_of(found)),
            Err(e) => result == Err::<Vec<u8>, ParseError>(e),
        },
{
    let found = match read_batch(input) {
        Ok(found) => found,
        Err(e) => {
            return Err(e);
        },
    };
    let rooms = make_rooms(&found);
    Ok(furnish(&rooms))
}

} // verus!

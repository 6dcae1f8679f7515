//! Counting only: how many desks of three cells fit a room when they lie end
//! to end in every row.

use vstd::prelude::*;
use crate::grid::{cells, extend_row, join, joined, line_break, CR, LF};
use crate::input::{
    counted, next_pair, one_further, pair_at, CountedInput, FromLines, LineReader, ParseError,
    Subtask,
};
use crate::labels::{decimal, render_number};
use crate::levels::reading_back::lemma_number_reads_back;
use crate::text::{filled_lines, lines_with_text, number, parse_number, text_lines};

verus! {

/// A room to furnish.
#[derive(Debug, Copy, Clone, PartialEq, Eq, Structural)]
pub struct Room {
    pub width: usize,
    pub height: usize,
}

impl FromLines for Room {
    /// A room stands on one line: its width and its height.
    open spec fn read(lines: Seq<Seq<u8>>, at: nat) -> Result<Room, ParseError> {
        match pair_at(lines, at) {
            Ok((width, height)) => Ok(Room { width, height }),
            Err(e) => Err(e),
        }
    }

    open spec fn after(lines: Seq<Seq<u8>>, at: nat) -> nat {
        one_further(lines, at)
    }

    fn from_lines(reader: &mut LineReader) -> (result: Result<Room, ParseError>) {
        match next_pair(reader) {
            Ok((width, height)) => Ok(Room { width, height }),
            Err(e) => Err(e),
        }
    }
}

impl Subtask for Room {

}

/// A batch of rooms.
pub type Input = CountedInput<Room>;

/// The answer for a room is no number.
#[derive(Debug, Copy, Clone, PartialEq, Eq, Structural)]
pub struct NotANumber;

/// The number of desks that fit a room.
pub open spec fn desk_count(room: Room) -> nat {
    (room.width / 3) as nat * room.height as nat
}

/// Counts the desks that fit a room and writes the number in decimal digits.
pub fn map(room: &Room) -> (text: Vec<u8>)
    requires
        desk_count(*room) <= usize::MAX,
    ensures
        text@ == decimal(desk_count(*room)),
{
    render_number(room.width / 3 * room.height)
}

/// Puts the answers of a batch together: a line break follows each answer
/// but the last, and one more ends the text.
pub fn reduce(results: Vec<Vec<u8>>) -> (text: Vec<u8>)
    ensures
        text@ == joined(cells(results), line_break()) + line_break(),
{
    let mut sep: Vec<u8> = Vec::new();
    sep.push(CR);
    sep.push(LF);
    assert(sep@ =~= line_break());
    let mut text = join(&results, &sep);
    extend_row(&mut text, &sep);
    text
}

/// Checks that an answer is a number.
pub fn verify(_input: &Room, output: &Vec<u8>) -> (result: Result<(), NotANumber>)
    ensures
        result is Ok <==> number(output@) is Some,
{
    match parse_number(output) {
        Some(_) => Ok(()),
        None => Err(NotANumber),
    }
}

/// The answers of a worked example: its lines that hold more than white
/// space.
pub fn split_example(input: &[u8]) -> (answers: Vec<Vec<u8>>)
    ensures
        cells(answers) == filled_lines(text_lines(input@)),
{
    lines_with_text(input)
}

/// The answer of one room of a batch is no number; `room` counts from one.
#[derive(Debug, Copy, Clone, PartialEq, Eq, Structural)]
pub struct RoomFailure {
    pub room: usize,
    pub error: NotANumber,
}

/// Why a batch gives no text.
#[derive(Debug)]
pub enum RunError {
    /// The text is no batch of rooms.
    Parse(ParseError),
    /// The desks of the room with this number, counted from one, are more
    /// than the machine can count.
    TooLarge { room: usize },
    /// Answers of the batch failed their verification.
    Rooms(Vec<RoomFailure>),
}

/// The answers of a batch: the number of desks of each room in decimal
/// digits.
pub open spec fn answers(rooms: Seq<Room>) -> Seq<Seq<u8>> {
    Seq::new(rooms.len(), |i: int| decimal(desk_count(rooms[i])))
}

/// The text of a batch: a line break follows every answer but the last, and
/// one more ends the text.
pub open spec fn batch_text(rooms: Seq<Room>) -> Seq<u8> {
    joined(answers(rooms), line_break()) + line_break()
}

/// The number of the first room, counted from one, whose desks the machine
/// cannot count.
pub open spec fn first_too_large(rooms: Seq<Room>) -> Option<int>
    decreases rooms.len(),
{
    if rooms.len() == 0 {
        None
    } else {
        match first_too_large(rooms.drop_last()) {
            Some(room) => Some(room),
            None => if desk_count(rooms.last()) > usize::MAX {
                Some(rooms.len() as int)
            } else {
                None
            },
        }
    }
}

/// Without a room that is too large, the desks of every room can be counted.
pub proof fn lemma_none_too_large(rooms: Seq<Room>)
    requires
        first_too_large(rooms) is None,
    ensures
        forall|i: int| 0 <= i < rooms.len() ==> desk_count(#[trigger] rooms[i]) <= usize::MAX,
    decreases rooms.len(),
{
    if rooms.len() > 0 {
        lemma_none_too_large(rooms.drop_last());
        assert forall|i: int| 0 <= i < rooms.len() implies desk_count(#[trigger] rooms[i])
            <= usize::MAX by {
            if i < rooms.len() - 1 {
                assert(rooms.drop_last()[i] == rooms[i]);
            }
        }
    }
}

/// Answers every room of a batch, verifies each answer and puts the answers
/// together. An answer that fails its verification is reported with the
/// number of its room; the count of desks written in decimal digits is
/// always read back as a number, so no room is ever reported.
pub fn solve(rooms: &Vec<Room>) -> (result: Result<Vec<u8>, Vec<RoomFailure>>)
    requires
        forall|i: int| 0 <= i < rooms.len() ==> desk_count(#[trigger] rooms[i]) <= usize::MAX,
    ensures
        result matches Ok(text) && text@ == batch_text(rooms@),
{
    let mut results: Vec<Vec<u8>> = Vec::new();
    let mut failures: Vec<RoomFailure> = Vec::new();
    let mut i: usize = 0;
    while i < rooms.len()
        invariant
            i <= rooms.len(),
            forall|i: int| 0 <= i < rooms.len() ==> desk_count(#[trigger] rooms[i]) <= usize::MAX,
            failures.len() == 0,
            results.len() == i,
            forall|k: int| 0 <= k < i ==> (#[trigger] results[k])@ == decimal(desk_count(rooms[k])),
        decreases rooms.len() - i,
    {
        let answer = map(&rooms[i]);
        proof {
            lemma_number_reads_back(desk_count(rooms[i as int]) as usize);
        }
        match verify(&rooms[i], &answer) {
            Ok(()) => {
                results.push(answer);
            },
            Err(error) => {
                failures.push(RoomFailure { room: i + 1, error });
            },
        }
        i += 1;
    }
    if failures.len() == 0 {
        assert(cells(results) =~= answers(rooms@));
        Ok(reduce(results))
    } else {
        Err(failures)
    }
}

/// Reads a batch of rooms from its text and answers it. A text that is no
/// batch fails as a whole, and so does a batch with a room whose desks cannot
/// be counted.
pub fn run(input: &[u8]) -> (result: Result<Vec<u8>, RunError>)
    ensures
        match counted::<Room>(input@) {
            Err(e) => result matches Err(RunError::Parse(found)) && found == e,
            Ok(rooms) => match first_too_large(rooms) {
                Some(room) => result matches Err(RunError::TooLarge { room: found }) && found
                    == room,
                None => result matches Ok(text) && text@ == batch_text(rooms),
            },
        },
{
    let batch: Input = match CountedInput::from_bytes(input) {
        Ok(batch) => batch,
        Err(e) => {
            return Err(RunError::Parse(e));
        },
    };
    let rooms = &batch.tasks;
    let mut found: Option<usize> = None;
    let mut i: usize = 0;
    assert(rooms@.subrange(0, 0) =~= Seq::<Room>::empty());
    while i < rooms.len()
        invariant
            i <= rooms.len(),
            found is Some <==> first_too_large(rooms@.subrange(0, i as int)) is Some,
            found matches Some(room) ==> first_too_large(rooms@.subrange(0, i as int)) == Some(
                room as int,
            ),
        decreases rooms.len() - i,
    {
        assert(rooms@.subrange(0, i + 1).drop_last() =~= rooms@.subrange(0, i as int));
        if found.is_none() && (rooms[i].width / 3).checked_mul(rooms[i].height).is_none() {
            found = Some(i + 1);
        }
        i += 1;
    }
    assert(rooms@.subrange(0, rooms.len() as int) =~= rooms@);
    match found {
        Some(room) => Err(RunError::TooLarge { room }),
        None => {
            proof {
                lemma_none_too_large(rooms@);
            }
            match solve(rooms) {
                Ok(text) => Ok(text),
                Err(failures) => Err(RunError::Rooms(failures)),
            }
        },
    }
}

} // verus!

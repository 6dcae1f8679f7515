//! Reading a batch of rooms from text: a line that counts the rooms, then
//! one line for each room with its sides and, where the variant has one, the
//! number of desks it must take.

use vstd::prelude::*;
use crate::grid::cells;
use crate::labels::SPACE;
use crate::text::{lines, number, parse_number, split, split_bytes, text_lines};

verus! {

/// Why a text is no batch of rooms.
#[derive(Debug, Copy, Clone, PartialEq, Eq, Structural)]
pub enum ParseError {
    /// The text has no first line with the number of rooms.
    NoCountLine,
    /// The first line is no number.
    InvalidCount,
    /// A room is announced and no line is left for it.
    NoLine,
    /// The line of a room ends after its width.
    MissingHeight,
    /// The line of a room ends after its height.
    MissingDeskCount,
    /// The width of a room is no number.
    InvalidWidth,
    /// The height of a room is no number.
    InvalidHeight,
    /// The number of desks of a room is no number.
    InvalidDeskCount,
}

/// Why a batch of rooms gives no text.
#[derive(Debug, Copy, Clone, PartialEq, Eq, Structural)]
pub enum BatchError {
    /// The text is no batch of rooms.
    Parse(ParseError),
    /// The room with this number, counted from one, has more cells than the
    /// machine can count.
    TooLarge { room: usize },
}

/// The number of the first room, counted from one, whose cells the machine
/// cannot count.
pub open spec fn first_too_large(rooms: Seq<(usize, usize, usize)>) -> Option<int>
    decreases rooms.len(),
{
    if rooms.len() == 0 {
        None
    } else {
        match first_too_large(rooms.drop_last()) {
            Some(room) => Some(room),
            None => if rooms.last().0 * rooms.last().1 > usize::MAX {
                Some(rooms.len() as int)
            } else {
                None
            },
        }
    }
}

/// The rooms that a text lists, or the reason why it gives none.
pub open spec fn batch_of(text: Seq<u8>) -> Result<Seq<(usize, usize, usize)>, BatchError> {
    match listed(text) {
        Err(e) => Err(BatchError::Parse(e)),
        Ok(rooms) => match first_too_large(rooms) {
            Some(room) => Err(BatchError::TooLarge { room: room as usize }),
            None => Ok(rooms),
        },
    }
}

/// Without a room that is too large, every room's cells can be counted.
pub proof fn lemma_none_too_large(rooms: Seq<(usize, usize, usize)>)
    requires
        first_too_large(rooms) is None,
    ensures
        forall|i: int| 0 <= i < rooms.len() ==> (#[trigger] rooms[i]).0 * rooms[i].1 <= usize::MAX,
    decreases rooms.len(),
{
    if rooms.len() > 0 {
        lemma_none_too_large(rooms.drop_last());
        assert forall|i: int| 0 <= i < rooms.len() implies (#[trigger] rooms[i]).0 * rooms[i].1
            <= usize::MAX by {
            if i < rooms.len() - 1 {
                assert(rooms.drop_last()[i] == rooms[i]);
            }
        }
    }
}

/// Reads the rooms of a batch and makes sure that the cells of each can be
/// counted.
pub fn read_rooms(text: &[u8]) -> (result: Result<Vec<(usize, usize, usize)>, BatchError>)
    ensures
        result matches Ok(rooms) ==> batch_of(text@) == Ok::<
            Seq<(usize, usize, usize)>,
            BatchError,
        >(rooms@) && forall|i: int|
            0 <= i < rooms.len() ==> (#[trigger] rooms[i]).0 * rooms[i].1 <= usize::MAX,
        result matches Err(e) ==> batch_of(text@) == Err::<Seq<(usize, usize, usize)>, BatchError>(
            e,
        ),
{
    let rooms = match read_batch(text) {
        Ok(rooms) => rooms,
        Err(e) => {
            return Err(BatchError::Parse(e));
        },
    };
    let mut found: Option<usize> = None;
    let mut i: usize = 0;
    assert(rooms@.subrange(0, 0) =~= Seq::<(usize, usize, usize)>::empty());
    while i < rooms.len()
        invariant
            i <= rooms.len(),
            found is Some <==> first_too_large(rooms@.subrange(0, i as int)) is Some,
            found matches Some(room) ==> first_too_large(rooms@.subrange(0, i as int)) == Some(
                room as int,
            ),
        decreases rooms.len() - i,
    {
        assert(rooms@.subrange(0, i + 1).drop_last() =~= rooms@.subrange(0, i as int));
        if found.is_none() && rooms[i].0.checked_mul(rooms[i].1).is_none() {
            found = Some(i + 1);
        }
        i += 1;
    }
    assert(rooms@.subrange(0, rooms.len() as int) =~= rooms@);
    match found {
        Some(room) => Err(BatchError::TooLarge { room }),
        None => {
            proof {
                lemma_none_too_large(rooms@);
            }
            Ok(rooms)
        },
    }
}

/// The texts of one puzzle variant: the worked example and the five tasks.
pub struct Inputs {
    pub example_in: &'static str,
    pub example_out: &'static str,
    pub tasks: [&'static str; 5],
}

/// The lines of a text and the place of the next line to read.
pub struct LineReader {
    pub lines: Vec<Vec<u8>>,
    pub next: usize,
}

impl LineReader {
    /// The next line never lies behind the end.
    pub open spec fn well_formed(&self) -> bool {
        self.next <= self.lines.len()
    }

    /// The lines that the reader walks over.
    pub open spec fn source(&self) -> Seq<Seq<u8>> {
        cells(self.lines)
    }

    /// The number of lines read so far.
    pub open spec fn position(&self) -> nat {
        self.next as nat
    }

    /// A reader at the first line of a text.
    pub fn new(text: &[u8]) -> (reader: LineReader)
        ensures
            reader.well_formed(),
            reader.source() == text_lines(text@),
            reader.position() == 0,
    {
        LineReader { lines: lines(text), next: 0 }
    }

    /// Whether every line has been read.
    pub fn is_done(&self) -> (done: bool)
        requires
            self.well_formed(),
        ensures
            done <==> self.position() == self.source().len(),
    {
        self.next == self.lines.len()
    }
}

/// The place after one line read at `at`: the next line, or the end.
pub open spec fn one_further(lines: Seq<Seq<u8>>, at: nat) -> nat {
    if at < lines.len() {
        at + 1
    } else {
        at
    }
}

/// The two sides that the line of a room gives. What follows them on the
/// line is not read.
pub open spec fn pair_of(line: Seq<u8>) -> Result<(usize, usize), ParseError> {
    let fields = split(line, SPACE);
    if fields.len() < 2 {
        Err(ParseError::MissingHeight)
    } else {
        match (number(fields[0]), number(fields[1])) {
            (None, _) => Err(ParseError::InvalidWidth),
            (Some(_), None) => Err(ParseError::InvalidHeight),
            (Some(width), Some(height)) => Ok((width, height)),
        }
    }
}

/// The sides and the number of desks that the line of a room gives. All
/// three fields must be there before any of them is read as a number.
pub open spec fn triple_of(line: Seq<u8>) -> Result<(usize, usize, usize), ParseError> {
    let fields = split(line, SPACE);
    if fields.len() < 2 {
        Err(ParseError::MissingHeight)
    } else if fields.len() < 3 {
        Err(ParseError::MissingDeskCount)
    } else {
        match (number(fields[0]), number(fields[1]), number(fields[2])) {
            (None, _, _) => Err(ParseError::InvalidWidth),
            (Some(_), None, _) => Err(ParseError::InvalidHeight),
            (Some(_), Some(_), None) => Err(ParseError::InvalidDeskCount),
            (Some(width), Some(height), Some(desks)) => Ok((width, height, desks)),
        }
    }
}

/// The two sides of the room on the line at `at`.
pub open spec fn pair_at(lines: Seq<Seq<u8>>, at: nat) -> Result<(usize, usize), ParseError> {
    if at < lines.len() {
        pair_of(lines[at as int])
    } else {
        Err(ParseError::NoLine)
    }
}

/// The sides and the number of desks of the room on the line at `at`.
pub open spec fn triple_at(lines: Seq<Seq<u8>>, at: nat) -> Result<
    (usize, usize, usize),
    ParseError,
> {
    if at < lines.len() {
        triple_of(lines[at as int])
    } else {
        Err(ParseError::NoLine)
    }
}

/// Reads the two sides of a room from a line.
pub fn read_pair(line: &Vec<u8>) -> (result: Result<(usize, usize), ParseError>)
    ensures
        result == pair_of(line@),
{
    let fields = split_bytes(line.as_slice(), SPACE);
    if fields.len() < 2 {
        return Err(ParseError::MissingHeight);
    }
    assert(fields[0]@ == split(line@, SPACE)[0]);
    assert(fields[1]@ == split(line@, SPACE)[1]);
    let width = match parse_number(&fields[0]) {
        Some(width) => width,
        None => {
            return Err(ParseError::InvalidWidth);
        },
    };
    let height = match parse_number(&fields[1]) {
        Some(height) => height,
        None => {
            return Err(ParseError::InvalidHeight);
        },
    };
    Ok((width, height))
}

/// Reads the sides and the number of desks of a room from a line.
pub fn read_triple(line: &Vec<u8>) -> (result: Result<(usize, usize, usize), ParseError>)
    ensures
        result == triple_of(line@),
{
    let fields = split_bytes(line.as_slice(), SPACE);
    if fields.len() < 2 {
        return Err(ParseError::MissingHeight);
    }
    if fields.len() < 3 {
        return Err(ParseError::MissingDeskCount);
    }
    assert(fields[0]@ == split(line@, SPACE)[0]);
    assert(fields[1]@ == split(line@, SPACE)[1]);
    assert(fields[2]@ == split(line@, SPACE)[2]);
    let width = match parse_number(&fields[0]) {
        Some(width) => width,
        None => {
            return Err(ParseError::InvalidWidth);
        },
    };
    let height = match parse_number(&fields[1]) {
        Some(height) => height,
        None => {
            return Err(ParseError::InvalidHeight);
        },
    };
    let desks = match parse_number(&fields[2]) {
        Some(desks) => desks,
        None => {
            return Err(ParseError::InvalidDeskCount);
        },
    };
    Ok((width, height, desks))
}

/// Reads the two sides of the next room and moves on by one line.
pub fn next_pair(reader: &mut LineReader) -> (result: Result<(usize, usize), ParseError>)
    requires
        old(reader).well_formed(),
    ensures
        final(reader).well_formed(),
        final(reader).source() == old(reader).source(),
        final(reader).position() == one_further(old(reader).source(), old(reader).position()),
        result == pair_at(old(reader).source(), old(reader).position()),
{
    if reader.next >= reader.lines.len() {
        return Err(ParseError::NoLine);
    }
    let result = read_pair(&reader.lines[reader.next]);
    reader.next += 1;
    result
}

/// Reads the sides and the number of desks of the next room and moves on by
/// one line.
pub fn next_triple(reader: &mut LineReader) -> (result: Result<
    (usize, usize, usize),
    ParseError,
>)
    requires
        old(reader).well_formed(),
    ensures
        final(reader).well_formed(),
        final(reader).source() == old(reader).source(),
        final(reader).position() == one_further(old(reader).source(), old(reader).position()),
        result == triple_at(old(reader).source(), old(reader).position()),
{
    if reader.next >= reader.lines.len() {
        return Err(ParseError::NoLine);
    }
    let result = read_triple(&reader.lines[reader.next]);
    reader.next += 1;
    result
}

/// A value that is read from the lines of a text.
pub trait FromLines: Sized {
    /// What the lines from `at` on stand for.
    spec fn read(lines: Seq<Seq<u8>>, at: nat) -> Result<Self, ParseError>;

    /// The place of the first line that the value does not take.
    spec fn after(lines: Seq<Seq<u8>>, at: nat) -> nat;

    /// Reads one value and moves the reader behind it. With a line left the
    /// reader always moves on.
    fn from_lines(reader: &mut LineReader) -> (result: Result<Self, ParseError>)
        requires
            old(reader).well_formed(),
        ensures
            final(reader).well_formed(),
            final(reader).source() == old(reader).source(),
            final(reader).position() == Self::after(
                old(reader).source(),
                old(reader).position(),
            ),
            old(reader).position() < old(reader).source().len() ==> final(reader).position()
                > old(reader).position(),
            result == Self::read(old(reader).source(), old(reader).position()),
    ;
}

/// One task of a batch.
pub trait Subtask: FromLines + Clone + PartialEq + Eq + core::fmt::Debug {

}

/// A batch of tasks.
pub trait Input {
    type Subtask;

    /// The tasks of the batch, in their order.
    spec fn tasks_view(&self) -> Seq<Self::Subtask>;

    /// The tasks of the batch, in their order.
    fn subtasks(&self) -> (tasks: &Vec<Self::Subtask>)
        ensures
            tasks@ == self.tasks_view(),
    ;
}

/// A batch that announces the number of its tasks on its first line.
pub struct CountedInput<TSubtask: Subtask> {
    pub count: usize,
    pub tasks: Vec<TSubtask>,
}

impl<TSubtask: Subtask> Input for CountedInput<TSubtask> {
    type Subtask = TSubtask;

    open spec fn tasks_view(&self) -> Seq<TSubtask> {
        self.tasks@
    }

    fn subtasks(&self) -> (tasks: &Vec<TSubtask>) {
        &self.tasks
    }
}

/// The first `n` values read one after another from `at` on, and the place
/// where reading stops. The first value that cannot be read ends the
/// reading.
pub open spec fn read_many<T: FromLines>(lines: Seq<Seq<u8>>, at: nat, n: nat) -> (
    Result<Seq<T>, ParseError>,
    nat,
)
    decreases n,
{
    if n == 0 {
        (Ok(Seq::empty()), at)
    } else {
        let (head, mid) = read_many::<T>(lines, at, (n - 1) as nat);
        match head {
            Err(e) => (Err(e), mid),
            Ok(values) => match T::read(lines, mid) {
                Ok(value) => (Ok(values.push(value)), T::after(lines, mid)),
                Err(e) => (Err(e), T::after(lines, mid)),
            },
        }
    }
}

/// The batch that a text stands for: its first line counts the tasks, and
/// that many tasks are read from the lines below it.
pub open spec fn counted<T: FromLines>(text: Seq<u8>) -> Result<Seq<T>, ParseError> {
    let lines = text_lines(text);
    if lines.len() == 0 {
        Err(ParseError::NoCountLine)
    } else {
        match number(lines[0]) {
            None => Err(ParseError::InvalidCount),
            Some(n) => read_many::<T>(lines, 1, n as nat).0,
        }
    }
}

/// Once a value cannot be read, asking for more values changes nothing.
pub proof fn lemma_read_many_stuck<T: FromLines>(lines: Seq<Seq<u8>>, at: nat, k: nat, n: nat)
    requires
        k <= n,
        read_many::<T>(lines, at, k).0 is Err,
    ensures
        read_many::<T>(lines, at, n) == read_many::<T>(lines, at, k),
    decreases n,
{
    if n > k {
        lemma_read_many_stuck::<T>(lines, at, k, (n - 1) as nat);
    }
}

impl<TSubtask: Subtask> CountedInput<TSubtask> {
    /// The batch holds as many tasks as it announced.
    pub open spec fn well_formed(&self) -> bool {
        self.count == self.tasks.len()
    }

    /// Reads a batch from its text.
    pub fn from_bytes(text: &[u8]) -> (result: Result<Self, ParseError>)
        ensures
            result matches Ok(input) ==> input.well_formed() && counted::<TSubtask>(text@) == Ok::<
                Seq<TSubtask>,
                ParseError,
            >(input.tasks@),
            result matches Err(e) ==> counted::<TSubtask>(text@) == Err::<
                Seq<TSubtask>,
                ParseError,
            >(e),
    {
        let mut reader = LineReader::new(text);
        if reader.is_done() {
            return Err(ParseError::NoCountLine);
        }
        assert(reader.lines[0]@ == text_lines(text@)[0]);
        let count: usize = match parse_number(&reader.lines[0]) {
            Some(count) => count,
            None => {
                return Err(ParseError::InvalidCount);
            },
        };
        let ghost all = text_lines(text@);
        assert(reader.lines[0]@ == all[0]);
        assert(number(all[0]) == Some(count));
        reader.next = 1;
        let mut tasks: Vec<TSubtask> = Vec::new();
        let mut i: usize = 0;
        while i < count
            invariant
                i <= count,
                reader.well_formed(),
                reader.source() == all,
                all == text_lines(text@),
                all.len() > 0,
                number(all[0]) == Some(count),
                tasks.len() == i,
                read_many::<TSubtask>(all, 1, i as nat) == (
                    Ok::<Seq<TSubtask>, ParseError>(tasks@),
                    reader.position(),
                ),
            decreases count - i,
        {
            let ghost at = reader.position();
            match TSubtask::from_lines(&mut reader) {
                Ok(task) => {
                    tasks.push(task);
                    assert(number(all[0]) == Some(count));
                },
                Err(e) => {
                    proof {
                        assert(TSubtask::read(all, at) == Err::<TSubtask, ParseError>(e));
                        assert(read_many::<TSubtask>(all, 1, (i + 1) as nat).0 == Err::<
                            Seq<TSubtask>,
                            ParseError,
                        >(e));
                        lemma_read_many_stuck::<TSubtask>(all, 1, (i + 1) as nat, count as nat);
                        assert(number(all[0]) == Some(count));
                        assert(counted::<TSubtask>(text@) == read_many::<TSubtask>(
                            all,
                            1,
                            count as nat,
                        ).0);
                    }
                    return Err(e);
                },
            }
            i += 1;
        }
        Ok(CountedInput { count, tasks })
    }
}

/// The rooms that the lines of a batch give, each line with the sides and
/// the number of desks of one room. The first line that gives no room decides.
pub open spec fn triples_of(lines: Seq<Seq<u8>>) -> Result<
    Seq<(usize, usize, usize)>,
    ParseError,
>
    decreases lines.len(),
{
    if lines.len() == 0 {
        Ok(Seq::empty())
    } else {
        match triples_of(lines.drop_last()) {
            Err(e) => Err(e),
            Ok(rooms) => match triple_of(lines.last()) {
                Err(e) => Err(e),
                Ok(room) => Ok(rooms.push(room)),
            },
        }
    }
}

/// The rooms of a batch whose first line is a number and whose every other
/// line is a room. The number is read and not held against the rooms.
pub open spec fn listed(text: Seq<u8>) -> Result<Seq<(usize, usize, usize)>, ParseError> {
    let lines = text_lines(text);
    if lines.len() == 0 {
        Err(ParseError::NoCountLine)
    } else if number(lines[0]) is None {
        Err(ParseError::InvalidCount)
    } else {
        triples_of(lines.subrange(1, lines.len() as int))
    }
}

/// A line that gives no room decides for every longer batch too.
pub proof fn lemma_triples_stuck(lines: Seq<Seq<u8>>, k: int)
    requires
        0 <= k <= lines.len(),
        triples_of(lines.subrange(0, k)) is Err,
    ensures
        triples_of(lines) == triples_of(lines.subrange(0, k)),
    decreases lines.len(),
{
    if k < lines.len() {
        assert(lines.drop_last().subrange(0, k) =~= lines.subrange(0, k));
        lemma_triples_stuck(lines.drop_last(), k);
    } else {
        assert(lines.subrange(0, k) =~= lines);
    }
}

/// Reads the rooms of a batch from its text.
pub fn read_batch(text: &[u8]) -> (result: Result<Vec<(usize, usize, usize)>, ParseError>)
    ensures
        result matches Ok(rooms) ==> listed(text@) == Ok::<
            Seq<(usize, usize, usize)>,
            ParseError,
        >(rooms@),
        result matches Err(e) ==> listed(text@) == Err::<Seq<(usize, usize, usize)>, ParseError>(
            e,
        ),
{
    let all = lines(text);
    if all.len() == 0 {
        return Err(ParseError::NoCountLine);
    }
    assert(all[0]@ == text_lines(text@)[0]);
    if parse_number(&all[0]).is_none() {
        return Err(ParseError::InvalidCount);
    }
    let ghost rest = text_lines(text@).subrange(1, all.len() as int);
    let mut rooms: Vec<(usize, usize, usize)> = Vec::new();
    let mut i: usize = 1;
    assert(rest.subrange(0, 0) =~= Seq::<Seq<u8>>::empty());
    while i < all.len()
        invariant
            1 <= i <= all.len(),
            cells(all) == text_lines(text@),
            number(text_lines(text@)[0]) is Some,
            rest == text_lines(text@).subrange(1, all.len() as int),
            triples_of(rest.subrange(0, i - 1)) == Ok::<Seq<(usize, usize, usize)>, ParseError>(
                rooms@,
            ),
        decreases all.len() - i,
    {
        assert(rest.subrange(0, i as int).drop_last() =~= rest.subrange(0, i - 1));
        assert(rest.subrange(0, i as int).last() == all[i as int]@);
        match read_triple(&all[i]) {
            Ok(room) => {
                rooms.push(room);
            },
            Err(e) => {
                proof {
                    assert(triples_of(rest.subrange(0, i as int)) == Err::<
                        Seq<(usize, usize, usize)>,
                        ParseError,
                    >(e));
                    lemma_triples_stuck(rest, i as int);
                    assert(listed(text@) == triples_of(rest));
                }
                return Err(e);
            },
        }
        i += 1;
    }
    assert(rest.subrange(0, all.len() - 1) =~= rest);
    Ok(rooms)
}

} // verus!

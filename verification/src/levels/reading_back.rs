//! What the labeled variant writes, the verifier reads back: the text of a
//! table stands for that table again, so the verdict on the text is the
//! verdict on the table.

use vstd::prelude::*;
use crate::grid::{joined, line_break, CR, LF};
use crate::labels::{decimal, grid_text, is_table, row_labels, row_text, SPACE};
use crate::levels::acceptance::lemma_generated_grid_verifies;
use crate::levels::level2::{
    desk_rows, desk_total, first_fault, row_fault, table_of, text_verdict, verdict, Room,
    VerifyError,
};
use crate::text::{digits_value, is_digit, number, split, text_lines, unsigned, without_cr};

verus! {

/// A number in decimal digits is one or more digits.
pub proof fn lemma_decimal_digits(n: nat)
    ensures
        decimal(n).len() >= 1,
        forall|i: int| 0 <= i < decimal(n).len() ==> is_digit(#[trigger] decimal(n)[i]),
    decreases n,
{
    if n >= 10 {
        lemma_decimal_digits(n / 10);
    }
}

/// The digits of a number have the number as their value.
pub proof fn lemma_decimal_value(n: nat)
    ensures
        digits_value(decimal(n)) == Some(n),
    decreases n,
{
    if n < 10 {
        assert(decimal(n).drop_last() =~= Seq::<u8>::empty());
        assert(digits_value(Seq::<u8>::empty()) == Some(0nat));
    } else {
        lemma_decimal_value(n / 10);
        assert(decimal(n).drop_last() =~= decimal(n / 10));
    }
}

/// A number written in decimal digits is read back as itself.
pub proof fn lemma_number_reads_back(n: usize)
    ensures
        number(decimal(n as nat)) == Some(n),
{
    lemma_decimal_digits(n as nat);
    lemma_decimal_value(n as nat);
    assert(is_digit(decimal(n as nat)[0]));
    assert(unsigned(decimal(n as nat)) == decimal(n as nat));
}

/// Bytes without a separator behind a text lengthen its last piece.
pub proof fn lemma_split_tail(text: Seq<u8>, tail: Seq<u8>, sep: u8)
    requires
        forall|i: int| 0 <= i < tail.len() ==> tail[i] != sep,
    ensures
        split(text + tail, sep).len() == split(text, sep).len() >= 1,
        split(text + tail, sep) == split(text, sep).update(
            split(text, sep).len() - 1,
            split(text, sep).last() + tail,
        ),
    decreases tail.len(),
{
    crate::text::lemma_split_len(text, sep);
    let pieces = split(text, sep);
    if tail.len() == 0 {
        assert(text + tail =~= text);
        assert(pieces.last() + tail =~= pieces.last());
        assert(pieces.update(pieces.len() - 1, pieces.last()) =~= pieces);
    } else {
        let head = tail.drop_last();
        lemma_split_tail(text, head, sep);
        assert((text + tail).drop_last() =~= text + head);
        assert((text + tail).last() == tail.last());
        assert(pieces.last() + head.push(tail.last()) =~= (pieces.last() + head).push(
            tail.last(),
        ));
        assert(head.push(tail.last()) =~= tail);
        assert(split(text + tail, sep) =~= pieces.update(
            pieces.len() - 1,
            pieces.last() + tail,
        ));
    }
}

/// Rows without a separator in them, joined by the separator, split into
/// the same rows again.
pub proof fn lemma_split_joined(rows: Seq<Seq<u8>>, sep: u8)
    requires
        rows.len() >= 1,
        forall|i: int, j: int| 0 <= i < rows.len() && 0 <= j < rows[i].len() ==> rows[i][j] != sep,
    ensures
        split(joined(rows, seq![sep]), sep) == rows,
    decreases rows.len(),
{
    let empty = Seq::<u8>::empty();
    if rows.len() == 1 {
        lemma_split_tail(empty, rows[0], sep);
        assert(empty + rows[0] =~= rows[0]);
        assert(split(empty, sep) =~= seq![empty]);
        assert(split(rows[0], sep) =~= rows);
    } else {
        let head = rows.drop_last();
        assert forall|i: int, j: int| 0 <= i < head.len() && 0 <= j < head[i].len() implies head[i][j]
            != sep by {
            assert(head[i] == rows[i]);
        }
        lemma_split_joined(head, sep);
        let cut = joined(head, seq![sep]) + seq![sep];
        assert(cut.drop_last() =~= joined(head, seq![sep]));
        assert(cut.last() == sep);
        assert(split(cut, sep) == head.push(empty));
        lemma_split_tail(cut, rows.last(), sep);
        assert(empty + rows.last() =~= rows.last());
        assert(joined(rows, seq![sep]) == cut + rows.last());
        assert(split(joined(rows, seq![sep]), sep) =~= rows);
    }
}

/// A row of one or more labels, written as text, is read back as itself.
pub proof fn lemma_row_reads_back(row: Seq<usize>)
    requires
        row.len() >= 1,
    ensures
        row_labels(row_text(row)) == Some(row),
        forall|i: int|
            0 <= i < row_text(row).len() ==> (#[trigger] row_text(row)[i]) != LF && row_text(
                row,
            )[i] != CR,
{
    let fields = Seq::new(row.len(), |i: int| decimal(row[i] as nat));
    assert forall|i: int, j: int| 0 <= i < fields.len() && 0 <= j < fields[i].len() implies is_digit(
        fields[i][j],
    ) by {
        lemma_decimal_digits(row[i] as nat);
    }
    lemma_split_joined(fields, SPACE);
    assert(split(row_text(row), SPACE) == fields);
    assert forall|i: int| 0 <= i < fields.len() implies number(#[trigger] fields[i]) == Some(
        row[i],
    ) by {
        lemma_number_reads_back(row[i]);
    }
    assert(row_labels(row_text(row))->0 =~= row);
    lemma_joined_bytes(fields, seq![SPACE]);
}

/// Every byte of a text of digits joined by blanks is a digit or a blank.
pub proof fn lemma_joined_bytes(rows: Seq<Seq<u8>>, sep: Seq<u8>)
    requires
        forall|i: int, j: int|
            0 <= i < rows.len() && 0 <= j < rows[i].len() ==> is_digit(rows[i][j]),
        forall|j: int| 0 <= j < sep.len() ==> sep[j] == SPACE,
    ensures
        forall|k: int|
            0 <= k < joined(rows, sep).len() ==> is_digit(#[trigger] joined(rows, sep)[k])
                || joined(rows, sep)[k] == SPACE,
    decreases rows.len(),
{
    if rows.len() > 1 {
        let head = rows.drop_last();
        assert forall|i: int, j: int| 0 <= i < head.len() && 0 <= j < head[i].len() implies is_digit(
            head[i][j],
        ) by {
            assert(head[i] == rows[i]);
        }
        lemma_joined_bytes(head, sep);
        let front = joined(head, sep);
        let all = joined(rows, sep);
        assert(all == front + sep + rows.last());
        assert forall|k: int| 0 <= k < all.len() implies is_digit(#[trigger] all[k]) || all[k]
            == SPACE by {
            if k < front.len() {
                assert(all[k] == front[k]);
            } else if k < front.len() + sep.len() {
                assert(all[k] == sep[k - front.len()]);
            } else {
                assert(all[k] == rows.last()[k - front.len() - sep.len()]);
                assert(rows.last() == rows[rows.len() - 1]);
            }
        }
    } else if rows.len() == 1 {
        assert(joined(rows, sep) == rows[0]);
    }
}

/// Lines joined by line breaks, with a carriage return behind the last, are
/// the lines with a carriage return behind each, joined by line feeds.
pub proof fn lemma_joined_by_line_feeds(lines: Seq<Seq<u8>>)
    requires
        lines.len() >= 1,
    ensures
        joined(lines, line_break()).push(CR) == joined(
            Seq::new(lines.len(), |i: int| lines[i].push(CR)),
            seq![LF],
        ),
    decreases lines.len(),
{
    let ended = Seq::new(lines.len(), |i: int| lines[i].push(CR));
    if lines.len() > 1 {
        let head = lines.drop_last();
        lemma_joined_by_line_feeds(head);
        assert(ended.drop_last() =~= Seq::new(head.len(), |i: int| head[i].push(CR)));
        assert(joined(lines, line_break()).push(CR) =~= joined(head, line_break()).push(CR)
            + seq![LF] + lines.last().push(CR));
    }
}

/// Lines without line feeds and carriage returns in them, each followed by a
/// line break, are read back as the same lines.
pub proof fn lemma_lines_read_back(lines: Seq<Seq<u8>>)
    requires
        lines.len() >= 1,
        forall|i: int, j: int|
            0 <= i < lines.len() && 0 <= j < lines[i].len() ==> lines[i][j] != LF && lines[i][j]
                != CR,
    ensures
        text_lines(joined(lines, line_break()) + line_break()) == lines,
{
    let ended = Seq::new(lines.len(), |i: int| lines[i].push(CR));
    let text = joined(lines, line_break()) + line_break();
    lemma_joined_by_line_feeds(lines);
    assert(text =~= joined(ended, seq![LF]).push(LF));
    lemma_split_joined(ended, LF);
    assert(text.drop_last() =~= joined(ended, seq![LF]));
    let pieces = split(text, LF);
    assert(pieces == ended.push(Seq::<u8>::empty()));
    assert forall|i: int| 0 <= i < lines.len() implies without_cr(pieces[i]) == lines[i] by {
        assert(pieces[i] == lines[i].push(CR));
        assert(lines[i].push(CR).drop_last() =~= lines[i]);
    }
    assert(text_lines(text) =~= lines);
}

/// Lines of which none is at fault are without a first fault.
pub proof fn lemma_no_fault(room: Room, lines: Seq<Seq<u8>>)
    requires
        forall|i: int| 0 <= i < lines.len() ==> row_fault(room, #[trigger] lines[i], i) is None,
    ensures
        first_fault(room, lines) is None,
    decreases lines.len(),
{
    if lines.len() > 0 {
        let head = lines.drop_last();
        assert forall|i: int| 0 <= i < head.len() implies row_fault(room, #[trigger] head[i], i)
            is None by {
            assert(head[i] == lines[i]);
        }
        lemma_no_fault(room, head);
    }
}

/// The verdict on the text of a table, with a line break after its last
/// row, is the verdict on the table.
pub proof fn lemma_text_reads_back(room: Room, grid: Seq<Seq<usize>>)
    requires
        room.width >= 1,
        room.height >= 1,
        is_table(grid, room.width as nat, room.height as nat),
    ensures
        text_verdict(room, grid_text(grid) + line_break()) == verdict(room, grid),
{
    let lines = Seq::new(grid.len(), |i: int| row_text(grid[i]));
    assert forall|i: int, j: int| 0 <= i < lines.len() && 0 <= j < lines[i].len() implies lines[i][j]
        != LF && lines[i][j] != CR by {
        lemma_row_reads_back(grid[i]);
    }
    lemma_lines_read_back(lines);
    assert forall|i: int| 0 <= i < lines.len() implies row_fault(room, #[trigger] lines[i], i)
        is None by {
        lemma_row_reads_back(grid[i]);
    }
    lemma_no_fault(room, lines);
    assert forall|i: int| 0 <= i < lines.len() implies #[trigger] table_of(lines)[i] == grid[i] by {
        lemma_row_reads_back(grid[i]);
    }
    assert(table_of(lines) =~= grid);
}

/// The verifier accepts the text that `map` writes for a room with at least
/// one cell that asks for as many desks as `map` places.
pub proof fn lemma_generated_text_verifies(room: Room)
    requires
        room.width >= 1,
        room.height >= 1,
        room.width * room.height <= usize::MAX,
        room.desk_count == desk_total(room.width as nat, room.height as nat),
    ensures
        text_verdict(
            room,
            grid_text(desk_rows(room.width as nat, room.height as nat)) + line_break(),
        ) == Ok::<(), VerifyError>(()),
{
    lemma_generated_grid_verifies(room);
    lemma_text_reads_back(room, desk_rows(room.width as nat, room.height as nat));
}

/// Lines joined by line breaks are the lines but the last with a carriage
/// return behind each, joined by line feeds.
pub proof fn lemma_plain_joined_by_line_feeds(lines: Seq<Seq<u8>>)
    requires
        lines.len() >= 1,
    ensures
        joined(lines, line_break()) == joined(
            Seq::new(
                lines.len(),
                |i: int|
                    if i < lines.len() - 1 {
                        lines[i].push(CR)
                    } else {
                        lines[i]
                    },
            ),
            seq![LF],
        ),
{
    let ended = Seq::new(
        lines.len(),
        |i: int|
            if i < lines.len() - 1 {
                lines[i].push(CR)
            } else {
                lines[i]
            },
    );
    if lines.len() > 1 {
        let head = lines.drop_last();
        lemma_joined_by_line_feeds(head);
        assert(ended.drop_last() =~= Seq::new(head.len(), |i: int| head[i].push(CR)));
        assert(joined(lines, line_break()) =~= joined(head, line_break()).push(CR) + seq![LF]
            + lines.last());
    }
}

/// Lines without line feeds and carriage returns in them, joined by line
/// breaks, are read back as the same lines when the last of them is not
/// empty.
pub proof fn lemma_plain_lines_read_back(lines: Seq<Seq<u8>>)
    requires
        lines.len() >= 1,
        lines.last().len() >= 1,
        forall|i: int, j: int|
            0 <= i < lines.len() && 0 <= j < lines[i].len() ==> lines[i][j] != LF && lines[i][j]
                != CR,
    ensures
        text_lines(joined(lines, line_break())) == lines,
{
    let ended = Seq::new(
        lines.len(),
        |i: int|
            if i < lines.len() - 1 {
                lines[i].push(CR)
            } else {
                lines[i]
            },
    );
    let text = joined(lines, line_break());
    lemma_plain_joined_by_line_feeds(lines);
    lemma_split_joined(ended, LF);
    let pieces = split(text, LF);
    assert(pieces == ended);
    assert forall|i: int| 0 <= i < lines.len() - 1 implies without_cr(pieces[i]) == lines[i] by {
        assert(pieces[i] == lines[i].push(CR));
        assert(lines[i].push(CR).drop_last() =~= lines[i]);
    }
    assert(pieces.last() == lines.last());
    assert(text_lines(text) =~= lines);
}

/// The verdict on the text of a table is the verdict on the table.
pub proof fn lemma_plain_text_reads_back(room: Room, grid: Seq<Seq<usize>>)
    requires
        room.width >= 1,
        room.height >= 1,
        is_table(grid, room.width as nat, room.height as nat),
    ensures
        text_verdict(room, grid_text(grid)) == verdict(room, grid),
{
    let lines = Seq::new(grid.len(), |i: int| row_text(grid[i]));
    assert forall|i: int, j: int| 0 <= i < lines.len() && 0 <= j < lines[i].len() implies lines[i][j]
        != LF && lines[i][j] != CR by {
        lemma_row_reads_back(grid[i]);
    }
    assert(lines.last().len() >= 1) by {
        let row = grid[grid.len() - 1];
        lemma_row_reads_back(row);
        if row_text(row).len() == 0 {
            assert(split(row_text(row), SPACE) =~= seq![Seq::<u8>::empty()]);
            assert(number(Seq::<u8>::empty()) is None);
            assert(split(row_text(row), SPACE)[0] == Seq::<u8>::empty());
        }
    }
    lemma_plain_lines_read_back(lines);
    assert forall|i: int| 0 <= i < lines.len() implies row_fault(room, #[trigger] lines[i], i)
        is None by {
        lemma_row_reads_back(grid[i]);
    }
    lemma_no_fault(room, lines);
    assert forall|i: int| 0 <= i < lines.len() implies #[trigger] table_of(lines)[i] == grid[i] by {
        lemma_row_reads_back(grid[i]);
    }
    assert(table_of(lines) =~= grid);
}

} // verus!

//! The text side of the puzzles: lines, fields and unsigned numbers, read
//! from bytes.

use vstd::prelude::*;
use crate::grid::{cells, CR, LF};

verus! {

/// The sign that may stand before a number.
pub const PLUS: u8 = 43;

/// The pieces of a text between separators. A text without a separator is
/// one piece; a separator at the end leaves an empty last piece.
pub open spec fn split(text: Seq<u8>, sep: u8) -> Seq<Seq<u8>>
    decreases text.len(),
{
    if text.len() == 0 {
        seq![Seq::<u8>::empty()]
    } else {
        let head = split(text.drop_last(), sep);
        if text.last() == sep {
            head.push(Seq::<u8>::empty())
        } else {
            head.update(head.len() - 1, head.last().push(text.last()))
        }
    }
}

/// A piece without the carriage return at its end, if it has one.
pub open spec fn without_cr(piece: Seq<u8>) -> Seq<u8> {
    if piece.len() > 0 && piece.last() == CR {
        piece.drop_last()
    } else {
        piece
    }
}

/// The lines of a text. A line ends in a line feed, or in a carriage return
/// and a line feed; neither belongs to the line. What follows the last line
/// feed is a line of its own unless it is empty.
pub open spec fn text_lines(text: Seq<u8>) -> Seq<Seq<u8>> {
    let pieces = split(text, LF);
    Seq::new((pieces.len() - 1) as nat, |i: int| without_cr(pieces[i])) + if pieces.last().len()
        > 0 {
        seq![pieces.last()]
    } else {
        Seq::<Seq<u8>>::empty()
    }
}

/// Whether a byte is a decimal digit.
pub open spec fn is_digit(b: u8) -> bool {
    48 <= b <= 57
}

/// The value of a run of decimal digits; nothing where a byte is no digit.
pub open spec fn digits_value(digits: Seq<u8>) -> Option<nat>
    decreases digits.len(),
{
    if digits.len() == 0 {
        Some(0)
    } else {
        match digits_value(digits.drop_last()) {
            Some(v) => if is_digit(digits.last()) {
                Some((10 * v + (digits.last() - 48)) as nat)
            } else {
                None
            },
            None => None,
        }
    }
}

/// The digits of a field: the field without the plus sign that may lead it.
pub open spec fn unsigned(field: Seq<u8>) -> Seq<u8> {
    if field.len() > 0 && field[0] == PLUS {
        field.drop_first()
    } else {
        field
    }
}

/// The number that a field stands for: one or more decimal digits, with or
/// without a plus sign before them, whose value the machine's integers hold.
pub open spec fn number(field: Seq<u8>) -> Option<usize> {
    let digits = unsigned(field);
    if digits.len() == 0 {
        None
    } else {
        match digits_value(digits) {
            Some(v) => if v <= usize::MAX {
                Some(v as usize)
            } else {
                None
            },
            None => None,
        }
    }
}

/// Splits a text at every separator.
pub fn split_bytes(text: &[u8], sep: u8) -> (pieces: Vec<Vec<u8>>)
    ensures
        cells(pieces) == split(text@, sep),
{
    let mut pieces: Vec<Vec<u8>> = Vec::new();
    let mut current: Vec<u8> = Vec::new();
    let mut i: usize = 0;
    assert(text@.subrange(0, 0) =~= Seq::<u8>::empty());
    assert(cells(pieces).push(current@) =~= split(text@.subrange(0, 0), sep));
    while i < text.len()
        invariant
            i <= text.len(),
            cells(pieces).push(current@) == split(text@.subrange(0, i as int), sep),
        decreases text.len() - i,
    {
        let ghost head = split(text@.subrange(0, i as int), sep);
        assert(text@.subrange(0, i + 1).drop_last() =~= text@.subrange(0, i as int));
        let ghost done = cells(pieces);
        let ghost open = current@;
        assert(head.len() == done.len() + 1 && head.last() == open);
        if text[i] == sep {
            pieces.push(current);
            current = Vec::new();
            assert(cells(pieces) =~= done.push(open));
            assert(cells(pieces).push(current@) =~= head.push(Seq::<u8>::empty()));
        } else {
            current.push(text[i]);
            assert(cells(pieces).push(current@) =~= head.update(
                head.len() - 1,
                head.last().push(text[i as int]),
            ));
        }
        i += 1;
    }
    assert(text@.subrange(0, text.len() as int) =~= text@);
    let ghost done = cells(pieces);
    pieces.push(current);
    assert(cells(pieces) =~= done.push(current@));
    pieces
}

/// Splits a text into its lines.
pub fn lines(text: &[u8]) -> (lines: Vec<Vec<u8>>)
    ensures
        cells(lines) == text_lines(text@),
{
    let mut pieces = split_bytes(text, LF);
    let ghost all = cells(pieces);
    assert(all.len() >= 1) by {
        lemma_split_len(text@, LF);
    }
    let n: usize = pieces.len() - 1;
    let mut i: usize = 0;
    while i < n
        invariant
            i <= n,
            n + 1 == pieces.len(),
            all.len() == pieces.len(),
            forall|k: int| 0 <= k < i ==> (#[trigger] pieces[k])@ == without_cr(all[k]),
            forall|k: int| i <= k < pieces.len() ==> (#[trigger] pieces[k])@ == all[k],
        decreases n - i,
    {
        let len: usize = pieces[i].len();
        if len > 0 && pieces[i][len - 1] == CR {
            pieces[i].pop();
            assert(pieces[i as int]@ =~= without_cr(all[i as int]));
        }
        i += 1;
    }
    if pieces[n].len() == 0 {
        pieces.pop();
    }
    assert(cells(pieces) =~= text_lines(text@));
    pieces
}

/// A text has at least one piece.
pub proof fn lemma_split_len(text: Seq<u8>, sep: u8)
    ensures
        split(text, sep).len() >= 1,
    decreases text.len(),
{
    if text.len() > 0 {
        lemma_split_len(text.drop_last(), sep);
    }
}

/// Reads the number that a field stands for.
pub fn parse_number(field: &Vec<u8>) -> (value: Option<usize>)
    ensures
        value == number(field@),
{
    let start: usize = if field.len() > 0 && field[0] == PLUS { 1 } else { 0 };
    let ghost digits = unsigned(field@);
    assert(digits =~= field@.subrange(start as int, field.len() as int));
    if start == field.len() {
        return None;
    }
    let mut ok: bool = true;
    let mut over: bool = false;
    let mut acc: usize = 0;
    let mut i: usize = start;
    assert(digits.subrange(0, 0) =~= Seq::<u8>::empty());
    while i < field.len()
        invariant
            start <= i <= field.len(),
            digits == field@.subrange(start as int, field.len() as int),
            ok <==> digits_value(digits.subrange(0, i - start)) is Some,
            ok && !over ==> digits_value(digits.subrange(0, i - start)) == Some(acc as nat),
            ok && over ==> digits_value(digits.subrange(0, i - start))->0 > usize::MAX,
        decreases field.len() - i,
    {
        assert(digits.subrange(0, i + 1 - start).drop_last() =~= digits.subrange(0, i - start));
        assert(digits.subrange(0, i + 1 - start).last() == field[i as int]);
        let b: u8 = field[i];
        if b < 48 || b > 57 {
            ok = false;
        } else if ok && !over {
            let d: usize = (b - 48) as usize;
            if acc > (usize::MAX - d) / 10 {
                over = true;
            } else {
                acc = 10 * acc + d;
            }
        }
        i += 1;
    }
    assert(digits.subrange(0, field.len() - start) =~= digits);
    if ok && !over {
        Some(acc)
    } else {
        None
    }
}

/// Whether a separator stands in a text at `at`.
pub open spec fn stands_at(text: Seq<u8>, sep: Seq<u8>, at: int) -> bool {
    &&& 0 <= at
    &&& at + sep.len() <= text.len()
    &&& text.subrange(at, at + sep.len()) == sep
}

/// The pieces of the text from `from` on, where no separator starts between
/// `from` and `at`: the text is cut at the first separator from `at` on, and
/// what follows that separator is cut in the same way.
pub open spec fn cut(text: Seq<u8>, sep: Seq<u8>, from: int, at: int) -> Seq<Seq<u8>>
    recommends
        sep.len() > 0,
        0 <= from <= at,
    decreases text.len() - at,
{
    if sep.len() == 0 || at + sep.len() > text.len() {
        seq![text.subrange(from, text.len() as int)]
    } else if stands_at(text, sep, at) {
        seq![text.subrange(from, at)] + cut(text, sep, at + sep.len(), at + sep.len())
    } else {
        cut(text, sep, from, at + 1)
    }
}

/// The pieces of a text between the places where a separator of several
/// bytes stands, found from the left.
pub open spec fn split_on(text: Seq<u8>, sep: Seq<u8>) -> Seq<Seq<u8>> {
    cut(text, sep, 0, 0)
}

/// Whether a byte is white space: a blank, a tab, or a line or page control.
pub open spec fn is_space(b: u8) -> bool {
    b == 32 || 9 <= b <= 13
}

/// Whether a line holds nothing but white space.
pub open spec fn is_blank(line: Seq<u8>) -> bool {
    forall|i: int| 0 <= i < line.len() ==> is_space(#[trigger] line[i])
}

/// The lines of a text that hold more than white space.
pub open spec fn filled_lines(lines: Seq<Seq<u8>>) -> Seq<Seq<u8>>
    decreases lines.len(),
{
    if lines.len() == 0 {
        Seq::empty()
    } else if is_blank(lines.last()) {
        filled_lines(lines.drop_last())
    } else {
        filled_lines(lines.drop_last()).push(lines.last())
    }
}

/// Tells whether the separator stands in the text at `at`.
fn matches_at(text: &[u8], sep: &[u8], at: usize) -> (found: bool)
    requires
        at + sep.len() <= text.len(),
    ensures
        found == stands_at(text@, sep@, at as int),
{
    let mut j: usize = 0;
    while j < sep.len()
        invariant
            j <= sep.len(),
            at + sep.len() <= text.len(),
            forall|k: int| 0 <= k < j ==> text[at + k] == sep[k],
        decreases sep.len() - j,
    {
        if text[at + j] != sep[j] {
            assert(text@.subrange(at as int, at + sep.len())[j as int] != sep@[j as int]);
            return false;
        }
        j += 1;
    }
    assert(text@.subrange(at as int, at + sep.len()) =~= sep@);
    true
}

/// Copies the bytes of a text from `from` up to `to`.
fn piece(text: &[u8], from: usize, to: usize) -> (out: Vec<u8>)
    requires
        from <= to <= text.len(),
    ensures
        out@ == text@.subrange(from as int, to as int),
{
    let mut out: Vec<u8> = Vec::new();
    let mut i: usize = from;
    while i < to
        invariant
            from <= i <= to <= text.len(),
            out@ == text@.subrange(from as int, i as int),
        decreases to - i,
    {
        out.push(text[i]);
        i += 1;
        assert(out@ =~= text@.subrange(from as int, i as int));
    }
    out
}

/// Splits a text at every place where a separator of one or more bytes
/// stands.
pub fn split_at_every(text: &[u8], sep: &[u8]) -> (pieces: Vec<Vec<u8>>)
    requires
        sep.len() > 0,
    ensures
        cells(pieces) == split_on(text@, sep@),
{
    let mut pieces: Vec<Vec<u8>> = Vec::new();
    let mut from: usize = 0;
    let mut at: usize = 0;
    assert(cells(pieces) + cut(text@, sep@, 0, 0) =~= split_on(text@, sep@));
    while sep.len() <= text.len() && at <= text.len() - sep.len()
        invariant
            sep.len() > 0,
            from <= at <= text.len(),
            cells(pieces) + cut(text@, sep@, from as int, at as int) == split_on(text@, sep@),
        decreases text.len() - at,
    {
        if matches_at(text, sep, at) {
            let ghost had = cells(pieces);
            pieces.push(piece(text, from, at));
            assert(cells(pieces) =~= had.push(text@.subrange(from as int, at as int)));
            at += sep.len();
            from = at;
            assert(cells(pieces) + cut(text@, sep@, from as int, at as int) =~= split_on(
                text@,
                sep@,
            ));
        } else {
            at += 1;
        }
    }
    let ghost had = cells(pieces);
    pieces.push(piece(text, from, text.len()));
    assert(cells(pieces) =~= had.push(text@.subrange(from as int, text.len() as int)));
    assert(cells(pieces) =~= split_on(text@, sep@));
    pieces
}

/// Tells whether a line holds nothing but white space.
pub fn blank(line: &Vec<u8>) -> (found: bool)
    ensures
        found == is_blank(line@),
{
    let mut i: usize = 0;
    while i < line.len()
        invariant
            i <= line.len(),
            forall|k: int| 0 <= k < i ==> is_space(#[trigger] line[k]),
        decreases line.len() - i,
    {
        let b: u8 = line[i];
        if !(b == 32 || (9 <= b && b <= 13)) {
            assert(!is_space(line@[i as int]));
            return false;
        }
        i += 1;
    }
    true
}

/// The lines of a text that hold more than white space.
pub fn lines_with_text(text: &[u8]) -> (kept: Vec<Vec<u8>>)
    ensures
        cells(kept) == filled_lines(text_lines(text@)),
{
    let all = lines(text);
    let mut kept: Vec<Vec<u8>> = Vec::new();
    let mut i: usize = 0;
    assert(cells(all).subrange(0, 0) =~= Seq::<Seq<u8>>::empty());
    while i < all.len()
        invariant
            i <= all.len(),
            cells(kept) == filled_lines(cells(all).subrange(0, i as int)),
        decreases all.len() - i,
    {
        assert(cells(all).subrange(0, i + 1).drop_last() =~= cells(all).subrange(0, i as int));
        assert(cells(all).subrange(0, i + 1).last() == all[i as int]@);
        if !blank(&all[i]) {
            let ghost had = cells(kept);
            let mut line: Vec<u8> = Vec::new();
            crate::grid::extend_row(&mut line, &all[i]);
            assert(line@ =~= all[i as int]@);
            kept.push(line);
            assert(cells(kept) =~= had.push(all[i as int]@));
        }
        i += 1;
    }
    assert(cells(all).subrange(0, all.len() as int) =~= cells(all));
    kept
}

} // verus!

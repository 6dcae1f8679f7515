//! The verifier accepts every grid that the labeled variant makes: the scan
//! across consumes the desks of each row one by one, nothing is left for the
//! scan down, and the labels consumed are as many as the room has desks.

use vstd::prelude::*;
use crate::labels::{first_label, first_left, is_table, lemma_first_bad_row};
use crate::levels::level2::{
    cleared, consumed, desk_at, desk_label, desk_rows, desk_total, lemma_desk_label_bound,
    scan_row, scan_rows, starts, step, verdict, Room, Scan,
};

verus! {

/// The labels from one to `n`.
pub open spec fn numbered(n: nat) -> Set<usize> {
    Set::new(|x: usize| 1 <= x <= n)
}

/// The desks of a row that the scan has consumed after `k` steps.
pub open spec fn taken(width: nat, k: nat) -> nat {
    if (k + 2) / 3 < width / 3 {
        (k + 2) / 3
    } else {
        width / 3
    }
}

/// The grid that `map` makes with the rows above `r` emptied, and in row `r`
/// the desks that `k` steps of the scan consume.
pub open spec fn eaten(width: nat, height: nat, r: int, k: nat) -> Seq<Seq<usize>> {
    Seq::new(
        height,
        |i: int|
            Seq::new(
                width,
                |c: int|
                    if i < r || (i == r && c < 3 * taken(width, k)) {
                        0usize
                    } else {
                        desk_label(width, i, c) as usize
                    },
            ),
    )
}

/// The state of the scan across after `k` steps in row `r`.
pub open spec fn progress(width: nat, height: nat, r: int, k: nat) -> Scan {
    Scan {
        grid: eaten(width, height, r, k),
        seen: numbered((r * (width / 3) + taken(width, k)) as nat),
        duplicate: None,
    }
}

/// There are `n` labels from one to `n`.
pub proof fn lemma_numbered_len(n: nat)
    requires
        n <= usize::MAX,
    ensures
        numbered(n).finite(),
        numbered(n).len() == n,
    decreases n,
{
    if n == 0 {
        assert(numbered(0) =~= Set::<usize>::empty());
    } else {
        lemma_numbered_len((n - 1) as nat);
        assert(numbered(n) =~= numbered((n - 1) as nat).insert(n as usize));
    }
}

/// The scan across row `r` goes as `progress` says.
pub proof fn lemma_row_progress(width: nat, height: nat, r: int, k: nat)
    requires
        width * height <= usize::MAX,
        0 <= r < height,
        k <= starts(width),
    ensures
        scan_row(progress(width, height, r, 0), r, k, false) == progress(width, height, r, k),
    decreases k,
{
    if k > 0 {
        lemma_row_progress(width, height, r, (k - 1) as nat);
        let per_row = width / 3;
        let s = progress(width, height, r, (k - 1) as nat);
        let t = progress(width, height, r, k);
        let c = k - 1;
        assert(c + 2 < width);
        lemma_desk_label_bound(width, height, r, c);
        lemma_desk_label_bound(width, height, r, c + 1);
        lemma_desk_label_bound(width, height, r, c + 2);
        assert(0 <= r * per_row) by (nonlinear_arith)
            requires
                0 <= r,
                0 <= per_row,
        ;
        if c % 3 == 0 && c < 3 * per_row {
            assert(taken(width, c as nat) == c / 3);
            assert(taken(width, k) == c / 3 + 1);
            let label = (1 + r * per_row + c / 3) as usize;
            assert(s.grid[r][c] == label);
            assert(s.grid[r][c + 1] == label);
            assert(s.grid[r][c + 2] == label);
            assert(desk_at(s.grid, r, c, false));
            assert(!s.seen.contains(label));
            assert(s.seen.insert(label) =~= t.seen);
            let after = cleared(s.grid, r, c, false);
            assert forall|i: int| 0 <= i < height implies after[i] =~= t.grid[i] by {}
            assert(after =~= t.grid);
            assert(step(s, r, c, false) == t);
        } else {
            assert(taken(width, k) == taken(width, c as nat));
            assert(s.grid[r][c] == 0);
            assert(!desk_at(s.grid, r, c, false));
            assert(step(s, r, c, false) == s);
        }
    }
}

/// The scan across the first `n` rows empties them and sees their desks.
pub proof fn lemma_rows_progress(width: nat, height: nat, n: nat)
    requires
        width * height <= usize::MAX,
        n <= height,
    ensures
        scan_rows(progress(width, height, 0, 0), n, starts(width), false) == progress(
            width,
            height,
            n as int,
            0,
        ),
    decreases n,
{
    if n > 0 {
        lemma_rows_progress(width, height, (n - 1) as nat);
        lemma_row_progress(width, height, n - 1, starts(width));
        let per_row = width / 3;
        let done = progress(width, height, n - 1, starts(width));
        let next = progress(width, height, n as int, 0);
        assert(taken(width, starts(width)) == per_row);
        assert(taken(width, 0) == 0);
        assert((n - 1) * per_row + per_row == n * per_row) by (nonlinear_arith);
        assert forall|i: int| 0 <= i < height implies done.grid[i] =~= next.grid[i] by {}
        assert(done.grid =~= next.grid);
        assert(done == next);
    }
}

/// A scan over an empty grid finds no desk.
pub proof fn lemma_nothing_to_scan(s: Scan, rows: nat, cols: nat, down: bool)
    requires
        forall|i: int, c: int| 0 <= i < rows && 0 <= c < cols ==> #[trigger] s.grid[i][c] == 0,
    ensures
        scan_rows(s, rows, cols, down) == s,
    decreases rows,
{
    if rows > 0 {
        lemma_nothing_to_scan(s, (rows - 1) as nat, cols, down);
        lemma_nothing_in_row(s, rows - 1, cols, cols, down);
    }
}

/// A scan over an empty row finds no desk.
pub proof fn lemma_nothing_in_row(s: Scan, r: int, k: nat, cols: nat, down: bool)
    requires
        k <= cols,
        forall|c: int| 0 <= c < cols ==> s.grid[r][c] == 0,
    ensures
        scan_row(s, r, k, down) == s,
    decreases k,
{
    if k > 0 {
        lemma_nothing_in_row(s, r, (k - 1) as nat, cols, down);
        assert(s.grid[r][k - 1] == 0);
    }
}

/// An empty row has no first label.
pub proof fn lemma_empty_row(row: Seq<usize>)
    requires
        forall|c: int| 0 <= c < row.len() ==> row[c] == 0,
    ensures
        first_label(row) is None,
    decreases row.len(),
{
    if row.len() > 0 {
        lemma_empty_row(row.drop_last());
    }
}

/// An empty grid has no first label.
pub proof fn lemma_empty_grid(grid: Seq<Seq<usize>>)
    requires
        forall|i: int, c: int|
            0 <= i < grid.len() && 0 <= c < grid[i].len() ==> #[trigger] grid[i][c] == 0,
    ensures
        first_left(grid) is None,
    decreases grid.len(),
{
    if grid.len() > 0 {
        lemma_empty_grid(grid.drop_last());
        lemma_empty_row(grid.last());
    }
}

/// The verifier accepts the grid that `map` makes for a room that asks for
/// as many desks as `map` places: every occupied cell of the grid is
/// consumed as part of a desk of three cells, no label is met twice, nothing
/// is left over, and the desks are as many as their number says.
pub proof fn lemma_generated_grid_verifies(room: Room)
    requires
        room.width * room.height <= usize::MAX,
        room.desk_count == desk_total(room.width as nat, room.height as nat),
    ensures
        verdict(room, desk_rows(room.width as nat, room.height as nat)) == Ok::<
            (),
            crate::levels::level2::VerifyError,
        >(()),
        consumed(
            desk_rows(room.width as nat, room.height as nat),
            room.width as nat,
            room.height as nat,
        ).seen == numbered(desk_total(room.width as nat, room.height as nat)),
{
    let width = room.width as nat;
    let height = room.height as nat;
    let per_row = width / 3;
    let grid = desk_rows(width, height);
    let start = Scan { grid, seen: Set::empty(), duplicate: None };
    let first = progress(width, height, 0, 0);
    assert(taken(width, 0) == 0);
    assert(0 * per_row == 0);
    assert forall|i: int| 0 <= i < height implies first.grid[i] =~= grid[i] by {}
    assert(first.grid =~= grid);
    assert(first.seen =~= Set::<usize>::empty());
    assert(first == start);
    lemma_rows_progress(width, height, height);
    let across = progress(width, height, height as int, 0);
    assert(scan_rows(start, height, starts(width), false) == across);
    lemma_nothing_to_scan(across, starts(height), width, true);
    assert(consumed(grid, width, height) == across);
    lemma_empty_grid(across.grid);
    assert(is_table(grid, width, height));
    lemma_first_bad_row(grid, width);
    assert(height * per_row * 3 <= width * height) by (nonlinear_arith)
        requires
            per_row * 3 <= width,
            0 <= height,
    ;
    lemma_numbered_len(desk_total(width, height));
}

} // verus!

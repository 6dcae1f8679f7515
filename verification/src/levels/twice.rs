//! A label that fills two desks is found out: when a table holds a label in
//! the cells of two desks that neither share a cell nor touch, and nowhere
//! else, the verifier meets a label twice and fails the table for it.

use vstd::prelude::*;
use crate::labels::is_table;
use crate::labels::without;
use crate::levels::level2::{
    cleared, consumed, desk_at, lemma_duplicate_decides, scan_row, scan_rows, starts, step,
    verdict, Room, Scan, VerifyError,
};

verus! {

/// A desk of three cells in a line: its first cell and whether it stands
/// upright.
pub struct Desk {
    pub r: int,
    pub c: int,
    pub down: bool,
}

impl Desk {
    /// The row of the cell `i` of the desk.
    pub open spec fn row(self, i: int) -> int {
        if self.down {
            self.r + i
        } else {
            self.r
        }
    }

    /// The column of the cell `i` of the desk.
    pub open spec fn col(self, i: int) -> int {
        if self.down {
            self.c
        } else {
            self.c + i
        }
    }

    /// Whether the desk lies inside a room.
    pub open spec fn fits(self, width: nat, height: nat) -> bool {
        0 <= self.r && 0 <= self.c && self.row(2) < height && self.col(2) < width
    }

    /// Whether a cell is one of the three cells of the desk.
    pub open spec fn covers(self, r: int, c: int) -> bool {
        ||| (self.row(0) == r && self.col(0) == c)
        ||| (self.row(1) == r && self.col(1) == c)
        ||| (self.row(2) == r && self.col(2) == c)
    }

    /// Whether every cell of the desk holds a value in a grid.
    pub open spec fn holds(self, grid: Seq<Seq<usize>>, value: usize) -> bool {
        &&& grid[self.row(0)][self.col(0)] == value
        &&& grid[self.row(1)][self.col(1)] == value
        &&& grid[self.row(2)][self.col(2)] == value
    }

    /// Whether no cell of the desk is a cell or touches it.
    pub open spec fn away(self, r: int, c: int) -> bool {
        &&& !near(self.row(0), self.col(0), r, c)
        &&& !near(self.row(1), self.col(1), r, c)
        &&& !near(self.row(2), self.col(2), r, c)
    }

    /// Whether the scan of one direction has passed the first cell of the
    /// desk when it stands before column `k` of row `r`.
    pub open spec fn passed(self, down: bool, r: int, k: int) -> bool {
        self.down == down && (self.r < r || (self.r == r && self.c < k))
    }
}

/// Whether two cells are the same cell or neighbours in a row or a column.
pub open spec fn near(r: int, c: int, r2: int, c2: int) -> bool {
    (r == r2 && -1 <= c - c2 <= 1) || (c == c2 && -1 <= r - r2 <= 1)
}

/// Whether two desks neither share a cell nor touch.
pub open spec fn apart(a: Desk, b: Desk) -> bool {
    &&& a.away(b.row(0), b.col(0))
    &&& a.away(b.row(1), b.col(1))
    &&& a.away(b.row(2), b.col(2))
}

/// A table that holds a label in the cells of two desks that stand apart,
/// and nowhere else.
pub open spec fn filled_twice(
    grid: Seq<Seq<usize>>,
    width: nat,
    height: nat,
    label: usize,
    a: Desk,
    b: Desk,
) -> bool {
    &&& is_table(grid, width, height)
    &&& label != 0
    &&& a.fits(width, height)
    &&& b.fits(width, height)
    &&& a.holds(grid, label)
    &&& b.holds(grid, label)
    &&& apart(a, b)
    &&& forall|r: int, c: int|
        0 <= r < height && 0 <= c < width && #[trigger] grid[r][c] == label ==> a.covers(r, c)
            || b.covers(r, c)
}

/// Whether a table holds a label in one of its cells.
pub open spec fn occurs(grid: Seq<Seq<usize>>, width: nat, height: nat, label: usize) -> bool {
    exists|r: int, c: int| 0 <= r < height && 0 <= c < width && #[trigger] grid[r][c] == label
}

/// What holds of a desk in a state of a scan that has met no label twice:
/// a desk whose first cell the scan has not passed is whole, and a desk that
/// it has passed is emptied and its label seen.
pub open spec fn settled(s: Scan, desk: Desk, label: usize, passed: bool) -> bool {
    if passed {
        desk.holds(s.grid, 0) && s.seen.contains(label)
    } else {
        desk.holds(s.grid, label)
    }
}

/// What holds of a state of a scan over a table that is filled twice: its
/// cells are those of the table or emptied, and unless a label was met
/// twice, both desks are settled and not both are passed.
pub open spec fn on_track(
    s: Scan,
    grid: Seq<Seq<usize>>,
    width: nat,
    height: nat,
    label: usize,
    a: Desk,
    b: Desk,
    pa: bool,
    pb: bool,
) -> bool {
    &&& is_table(s.grid, width, height)
    &&& s.duplicate matches Some(x) ==> x != 0 && occurs(grid, width, height, x)
    &&& s.duplicate is None ==> {
        &&& forall|r: int, c: int|
            0 <= r < height && 0 <= c < width ==> #[trigger] s.grid[r][c] == grid[r][c]
                || s.grid[r][c] == 0
        &&& settled(s, a, label, pa)
        &&& settled(s, b, label, pb)
        &&& !(pa && pb)
    }
}

/// The cells of a grid after a desk is emptied.
pub proof fn lemma_cleared_cells(grid: Seq<Seq<usize>>, width: nat, height: nat, p: Desk)
    requires
        is_table(grid, width, height),
        p.fits(width, height),
    ensures
        is_table(cleared(grid, p.r, p.c, p.down), width, height),
        forall|i: int, j: int|
            0 <= i < height && 0 <= j < width ==> #[trigger] cleared(
                grid,
                p.r,
                p.c,
                p.down,
            )[i][j] == if p.covers(i, j) {
                0
            } else {
                grid[i][j]
            },
{
    let one = without(grid, p.row(0), p.col(0));
    let two = without(one, p.row(1), p.col(1));
    let three = without(two, p.row(2), p.col(2));
    assert(is_table(one, width, height));
    assert(is_table(two, width, height));
    assert(is_table(three, width, height));
    assert(three == cleared(grid, p.r, p.c, p.down));
}

/// Three cells in a line that all belong to one of two desks that stand
/// apart are the cells of one of the two.
pub proof fn lemma_three_in_a_line(a: Desk, b: Desk, p: Desk)
    requires
        apart(a, b),
        a.covers(p.row(0), p.col(0)) || b.covers(p.row(0), p.col(0)),
        a.covers(p.row(1), p.col(1)) || b.covers(p.row(1), p.col(1)),
        a.covers(p.row(2), p.col(2)) || b.covers(p.row(2), p.col(2)),
    ensures
        p == a || p == b,
{
    if a.covers(p.row(0), p.col(0)) {
        assert(a.covers(p.row(1), p.col(1)));
        assert(a.covers(p.row(2), p.col(2)));
        assert(p.r == a.r && p.c == a.c && p.down == a.down);
    } else {
        assert(b.covers(p.row(1), p.col(1)));
        assert(b.covers(p.row(2), p.col(2)));
        assert(p.r == b.r && p.c == b.c && p.down == b.down);
    }
}

/// A step of the scan keeps the state on track.
pub proof fn lemma_step_on_track(
    s: Scan,
    grid: Seq<Seq<usize>>,
    width: nat,
    height: nat,
    label: usize,
    a: Desk,
    b: Desk,
    pa: bool,
    pb: bool,
    r: int,
    c: int,
    down: bool,
)
    requires
        filled_twice(grid, width, height, label, a, b),
        on_track(s, grid, width, height, label, a, b, pa, pb),
        (Desk { r, c, down }).fits(width, height),
    ensures
        on_track(
            step(s, r, c, down),
            grid,
            width,
            height,
            label,
            a,
            b,
            pa || a == (Desk { r, c, down }),
            pb || b == (Desk { r, c, down }),
        ),
{
    let p = Desk { r, c, down };
    let t = step(s, r, c, down);
    if s.duplicate is None {
        lemma_cleared_cells(s.grid, width, height, p);
        if desk_at(s.grid, r, c, down) {
            let x = s.grid[r][c];
            assert(p.holds(s.grid, x));
            assert(grid[r][c] == x && x != 0);
            assert(occurs(grid, width, height, x));
            if x == label {
                assert(p.holds(grid, label));
                lemma_three_in_a_line(a, b, p);
            } else {
                assert(p != a) by {
                    if p == a {
                        assert(!pa);
                    }
                }
                assert(p != b) by {
                    if p == b {
                        assert(!pb);
                    }
                }
            }
            if t.duplicate is None {
                assert(t.grid == cleared(s.grid, r, c, down));
                assert(!s.seen.contains(x));
                if x == label {
                    assert(!pa && !pb);
                    if p == a {
                        assert(a.holds(t.grid, 0));
                        assert(b.holds(t.grid, label));
                    } else {
                        assert(b.holds(t.grid, 0));
                        assert(a.holds(t.grid, label));
                    }
                } else {
                    assert(settled(t, a, label, pa));
                    assert(settled(t, b, label, pb));
                }
            }
        } else {
            assert(t == s);
            assert(p == a ==> pa);
            assert(p == b ==> pb);
        }
    }
}

/// Whether the scan of one direction has passed a desk, or had passed it
/// before.
pub open spec fn done(desk: Desk, before: bool, down: bool, r: int, k: int) -> bool {
    before || desk.passed(down, r, k)
}

/// The scan of a row keeps the state on track.
pub proof fn lemma_row_on_track(
    s: Scan,
    grid: Seq<Seq<usize>>,
    width: nat,
    height: nat,
    label: usize,
    a: Desk,
    b: Desk,
    qa: bool,
    qb: bool,
    down: bool,
    r: int,
    k: nat,
    cols: nat,
)
    requires
        filled_twice(grid, width, height, label, a, b),
        on_track(
            s,
            grid,
            width,
            height,
            label,
            a,
            b,
            done(a, qa, down, r, 0),
            done(b, qb, down, r, 0),
        ),
        k <= cols,
        cols > 0 ==> (Desk { r, c: cols - 1, down }).fits(width, height),
    ensures
        on_track(
            scan_row(s, r, k, down),
            grid,
            width,
            height,
            label,
            a,
            b,
            done(a, qa, down, r, k as int),
            done(b, qb, down, r, k as int),
        ),
    decreases k,
{
    if k > 0 {
        lemma_row_on_track(
            s,
            grid,
            width,
            height,
            label,
            a,
            b,
            qa,
            qb,
            down,
            r,
            (k - 1) as nat,
            cols,
        );
        let before = scan_row(s, r, (k - 1) as nat, down);
        let p = Desk { r, c: k - 1, down };
        assert(p.fits(width, height));
        lemma_step_on_track(
            before,
            grid,
            width,
            height,
            label,
            a,
            b,
            done(a, qa, down, r, k - 1),
            done(b, qb, down, r, k - 1),
            r,
            k - 1,
            down,
        );
        assert((done(a, qa, down, r, k - 1) || a == p) == done(a, qa, down, r, k as int));
        assert((done(b, qb, down, r, k - 1) || b == p) == done(b, qb, down, r, k as int));
    }
}

/// The scan of the first rows of a pass keeps the state on track.
pub proof fn lemma_rows_on_track(
    s: Scan,
    grid: Seq<Seq<usize>>,
    width: nat,
    height: nat,
    label: usize,
    a: Desk,
    b: Desk,
    qa: bool,
    qb: bool,
    down: bool,
    n: nat,
    cols: nat,
)
    requires
        filled_twice(grid, width, height, label, a, b),
        on_track(s, grid, width, height, label, a, b, qa, qb),
        n > 0 && cols > 0 ==> (Desk { r: n - 1, c: cols - 1, down }).fits(width, height),
        a.down == down ==> a.c < cols,
        b.down == down ==> b.c < cols,
    ensures
        on_track(
            scan_rows(s, n, cols, down),
            grid,
            width,
            height,
            label,
            a,
            b,
            done(a, qa, down, n as int, 0),
            done(b, qb, down, n as int, 0),
        ),
    decreases n,
{
    if n > 0 {
        lemma_rows_on_track(
            s,
            grid,
            width,
            height,
            label,
            a,
            b,
            qa,
            qb,
            down,
            (n - 1) as nat,
            cols,
        );
        let before = scan_rows(s, (n - 1) as nat, cols, down);
        lemma_row_on_track(
            before,
            grid,
            width,
            height,
            label,
            a,
            b,
            qa,
            qb,
            down,
            n - 1,
            cols,
            cols,
        );
        assert(done(a, qa, down, n - 1, cols as int) == done(a, qa, down, n as int, 0));
        assert(done(b, qb, down, n - 1, cols as int) == done(b, qb, down, n as int, 0));
    } else {
        assert(done(a, qa, down, 0, 0) == qa);
        assert(done(b, qb, down, 0, 0) == qb);
    }
}

/// A table that holds a label in the cells of two desks that stand apart,
/// and nowhere else, fails verification for a label met twice. The label
/// named is one that the table holds; it is the label of the two desks
/// unless the scan meets another label twice before.
pub proof fn lemma_filled_twice_fails(
    room: Room,
    grid: Seq<Seq<usize>>,
    label: usize,
    a: Desk,
    b: Desk,
)
    requires
        filled_twice(grid, room.width as nat, room.height as nat, label, a, b),
    ensures
        verdict(room, grid) matches Err(VerifyError::DuplicateDesk { label: found }) && found != 0
            && occurs(grid, room.width as nat, room.height as nat, found),
        (forall|r: int, c: int|
            0 <= r < room.height && 0 <= c < room.width ==> #[trigger] grid[r][c] == 0
                || grid[r][c] == label) ==> verdict(room, grid) == Err::<(), VerifyError>(
            VerifyError::DuplicateDesk { label },
        ),
{
    let width = room.width as nat;
    let height = room.height as nat;
    let start = Scan { grid, seen: Set::empty(), duplicate: None };
    assert(on_track(start, grid, width, height, label, a, b, false, false));
    lemma_rows_on_track(
        start,
        grid,
        width,
        height,
        label,
        a,
        b,
        false,
        false,
        false,
        height,
        starts(width),
    );
    let across = scan_rows(start, height, starts(width), false);
    let qa = done(a, false, false, height as int, 0);
    let qb = done(b, false, false, height as int, 0);
    assert(qa == !a.down && qb == !b.down);
    lemma_rows_on_track(
        across,
        grid,
        width,
        height,
        label,
        a,
        b,
        qa,
        qb,
        true,
        starts(height),
        width,
    );
    let last = consumed(grid, width, height);
    assert(done(a, qa, true, starts(height) as int, 0));
    assert(done(b, qb, true, starts(height) as int, 0));
    assert(last.duplicate is Some);
    lemma_duplicate_decides(room, grid);
    let found = last.duplicate->0;
    if forall|r: int, c: int|
        0 <= r < room.height && 0 <= c < room.width ==> #[trigger] grid[r][c] == 0 || grid[r][c]
            == label {
        let (r, c) = choose|r: int, c: int|
            0 <= r < height && 0 <= c < width && #[trigger] grid[r][c] == found;
        assert(grid[r][c] == 0 || grid[r][c] == label);
    }
}

} // verus!

//! The verifier consumes every grid of the banded variant whole: the scan
//! across takes the lying desks row by row, the scan down takes the upright
//! desks band by band, no label is met twice and no cell is left over.

use vstd::prelude::*;
use crate::labels::{first_left, grid_text, is_table, lemma_first_bad_row};
use crate::levels::reading_back::lemma_plain_text_reads_back;
use crate::levels::acceptance::{lemma_empty_grid, taken};
use crate::levels::level2::{
    cleared, consumed, desk_at, scan_row, scan_rows, starts, step, text_verdict, verdict, Room,
    Scan, VerifyError,
};
use crate::levels::level3::{
    lemma_table_cell, lemma_tables_are_triples, table_label, table_rows,
};

verus! {

/// Whether the lying desk `d` of row `i` comes before desk `m` of row `r`.
pub open spec fn lying_before(width: nat, height: nat, r: int, m: int, i: int, d: int) -> bool {
    &&& 0 <= i < height
    &&& 0 <= d < width / 3
    &&& (i < r || (i == r && d < m))
}

/// The label of the lying desk `d` of row `i`.
pub open spec fn lying_label(width: nat, height: nat, i: int, d: int) -> int {
    table_label(width, height, i, 3 * d)
}

/// Whether the upright desk in column `c` of band `b` is met before column
/// `k` of row `r` on the way down.
pub open spec fn upright_before(width: nat, height: nat, r: int, k: int, b: int, c: int) -> bool {
    &&& 0 <= b < height / 3
    &&& 3 * (width / 3) <= c < width
    &&& (3 * b < r || (3 * b == r && c < k))
}

/// The label of the upright desk in column `c` of band `b`.
pub open spec fn upright_label(width: nat, height: nat, b: int, c: int) -> int {
    table_label(width, height, 3 * b, c)
}

/// Whether a label belongs to a desk that the scan has consumed when it has
/// gone across to desk `m` of row `r` and down to column `k` of row `s`.
pub open spec fn met(width: nat, height: nat, r: int, m: int, s: int, k: int, x: usize) -> bool {
    ||| exists|i: int, d: int|
        lying_before(width, height, r, m, i, d) && #[trigger] lying_label(width, height, i, d)
            == x
    ||| exists|b: int, c: int|
        upright_before(width, height, s, k, b, c) && #[trigger] upright_label(
            width,
            height,
            b,
            c,
        ) == x
}

/// The state of the scan when it has gone across to desk `m` of row `r` and
/// down to column `k` of row `s`.
pub open spec fn reached(width: nat, height: nat, r: int, m: int, s: int, k: int) -> Scan {
    Scan {
        grid: Seq::new(
            height,
            |i: int|
                Seq::new(
                    width,
                    |c: int|
                        if lying_before(width, height, r, m, i, c / 3) || upright_before(
                            width,
                            height,
                            s,
                            k,
                            i / 3,
                            c,
                        ) {
                            0usize
                        } else {
                            table_label(width, height, i, c) as usize
                        },
                ),
        ),
        seen: Set::new(|x: usize| met(width, height, r, m, s, k, x)),
        duplicate: None,
    }
}

/// The scan across row `r` consumes its lying desks one by one.
pub proof fn lemma_across_row(width: nat, height: nat, r: int, k: nat)
    requires
        width * height <= usize::MAX,
        0 <= r < height,
        k <= starts(width),
        reached(width, height, r, 0, 0, 0).seen.finite(),
    ensures
        scan_row(reached(width, height, r, 0, 0, 0), r, k, false) == reached(
            width,
            height,
            r,
            taken(width, k) as int,
            0,
            0,
        ),
        reached(width, height, r, taken(width, k) as int, 0, 0).seen.finite(),
        reached(width, height, r, taken(width, k) as int, 0, 0).seen.len() == reached(
            width,
            height,
            r,
            0,
            0,
            0,
        ).seen.len() + taken(width, k),
    decreases k,
{
    if k > 0 {
        lemma_across_row(width, height, r, (k - 1) as nat);
        let per_row = (width / 3) as int;
        let c = k - 1;
        let m = taken(width, c as nat) as int;
        let s = reached(width, height, r, m, 0, 0);
        let t = reached(width, height, r, taken(width, k) as int, 0, 0);
        lemma_table_cell(width, height, r, c);
        lemma_table_cell(width, height, r, c + 1);
        lemma_table_cell(width, height, r, c + 2);
        assert(c + 2 < width);
        assert(c < 3 * per_row);
        if c % 3 == 0 {
            assert(m == c / 3 && taken(width, k) == c / 3 + 1);
            let label = table_label(width, height, r, c) as usize;
            assert(table_label(width, height, r, c) == lying_label(width, height, r, c / 3));
            lemma_lying_desk_cells(width, height, r, c);
            assert(table_label(width, height, r, c + 1) == table_label(width, height, r, c));
            assert(table_label(width, height, r, c + 2) == table_label(width, height, r, c));
            assert(s.grid[r][c] == label && s.grid[r][c + 1] == label && s.grid[r][c + 2]
                == label);
            assert(desk_at(s.grid, r, c, false));
            assert(!s.seen.contains(label)) by {
                if s.seen.contains(label) {
                    let (i, d) = choose|i: int, d: int|
                        lying_before(width, height, r, m, i, d) && #[trigger] lying_label(
                            width,
                            height,
                            i,
                            d,
                        ) == label;
                    lemma_table_cell(width, height, i, 3 * d);
                    lemma_tables_are_triples(width, height, r, c, i, 3 * d);
                }
            }
            assert forall|x: usize| s.seen.insert(label).contains(x) == t.seen.contains(x) by {
                if x == label {
                    assert(lying_before(width, height, r, m + 1, r, c / 3));
                    assert(lying_label(width, height, r, c / 3) == x);
                }
                if s.seen.contains(x) {
                    let (i, d) = choose|i: int, d: int|
                        lying_before(width, height, r, m, i, d) && #[trigger] lying_label(
                            width,
                            height,
                            i,
                            d,
                        ) == x;
                    assert(lying_before(width, height, r, m + 1, i, d));
                }
                if t.seen.contains(x) && x != label {
                    let (i, d) = choose|i: int, d: int|
                        lying_before(width, height, r, m + 1, i, d) && #[trigger] lying_label(
                            width,
                            height,
                            i,
                            d,
                        ) == x;
                    assert(lying_before(width, height, r, m, i, d));
                }
            }
            assert(s.seen.insert(label) =~= t.seen);
            let after = cleared(s.grid, r, c, false);
            assert forall|i: int| 0 <= i < height implies after[i] =~= t.grid[i] by {}
            assert(after =~= t.grid);
            assert(step(s, r, c, false) == t);
        } else {
            assert(taken(width, k) == m);
            assert(s.grid[r][c] == 0);
            assert(!desk_at(s.grid, r, c, false));
        }
    }
}

/// The three cells of a lying desk share its label, which is not zero.
pub proof fn lemma_lying_desk_cells(width: nat, height: nat, r: int, c: int)
    requires
        0 <= r < height,
        0 <= c < 3 * (width / 3),
        c % 3 == 0,
    ensures
        table_label(width, height, r, c) >= 1,
        table_label(width, height, r, c + 1) == table_label(width, height, r, c),
        table_label(width, height, r, c + 2) == table_label(width, height, r, c),
{
    let per_row = (width / 3) as int;
    let bands = (height / 3) as int;
    let band = r / 3;
    assert(0 <= band * width) by (nonlinear_arith)
        requires
            0 <= band,
            0 <= width,
    ;
    assert(0 <= bands * width) by (nonlinear_arith)
        requires
            0 <= bands,
            0 <= width,
    ;
    let row = if r < 3 * bands {
        r % 3
    } else {
        r - 3 * bands
    };
    assert(0 <= row * per_row) by (nonlinear_arith)
        requires
            0 <= row,
            0 <= per_row,
    ;
}

/// Two states that have consumed the same desks are the same state.
proof fn lemma_same_reach(
    width: nat,
    height: nat,
    r: int,
    m: int,
    s: int,
    k: int,
    r2: int,
    m2: int,
    s2: int,
    k2: int,
)
    requires
        forall|i: int, d: int|
            lying_before(width, height, r, m, i, d) == lying_before(width, height, r2, m2, i, d),
        forall|b: int, c: int|
            upright_before(width, height, s, k, b, c) == upright_before(
                width,
                height,
                s2,
                k2,
                b,
                c,
            ),
    ensures
        reached(width, height, r, m, s, k) == reached(width, height, r2, m2, s2, k2),
{
    let a = reached(width, height, r, m, s, k);
    let b = reached(width, height, r2, m2, s2, k2);
    assert forall|i: int| 0 <= i < height implies a.grid[i] =~= b.grid[i] by {}
    assert(a.grid =~= b.grid);
    assert forall|x: usize| a.seen.contains(x) == b.seen.contains(x) by {
        if a.seen.contains(x) {
            if exists|i: int, d: int|
                lying_before(width, height, r, m, i, d) && #[trigger] lying_label(
                    width,
                    height,
                    i,
                    d,
                ) == x {
                let (i, d) = choose|i: int, d: int|
                    lying_before(width, height, r, m, i, d) && #[trigger] lying_label(
                        width,
                        height,
                        i,
                        d,
                    ) == x;
                assert(lying_before(width, height, r2, m2, i, d));
            } else {
                let (u, c) = choose|u: int, c: int|
                    upright_before(width, height, s, k, u, c) && #[trigger] upright_label(
                        width,
                        height,
                        u,
                        c,
                    ) == x;
                assert(upright_before(width, height, s2, k2, u, c));
            }
        }
        if b.seen.contains(x) {
            if exists|i: int, d: int|
                lying_before(width, height, r2, m2, i, d) && #[trigger] lying_label(
                    width,
                    height,
                    i,
                    d,
                ) == x {
                let (i, d) = choose|i: int, d: int|
                    lying_before(width, height, r2, m2, i, d) && #[trigger] lying_label(
                        width,
                        height,
                        i,
                        d,
                    ) == x;
                assert(lying_before(width, height, r, m, i, d));
            } else {
                let (u, c) = choose|u: int, c: int|
                    upright_before(width, height, s2, k2, u, c) && #[trigger] upright_label(
                        width,
                        height,
                        u,
                        c,
                    ) == x;
                assert(upright_before(width, height, s, k, u, c));
            }
        }
    }
    assert(a.seen =~= b.seen);
}

/// The scan across the first `n` rows consumes their lying desks.
pub proof fn lemma_across_rows(width: nat, height: nat, n: nat)
    requires
        width * height <= usize::MAX,
        n <= height,
    ensures
        scan_rows(reached(width, height, 0, 0, 0, 0), n, starts(width), false) == reached(
            width,
            height,
            n as int,
            0,
            0,
            0,
        ),
        reached(width, height, n as int, 0, 0, 0).seen.finite(),
        reached(width, height, n as int, 0, 0, 0).seen.len() == n * (width / 3),
    decreases n,
{
    let per_row = width / 3;
    if n > 0 {
        lemma_across_rows(width, height, (n - 1) as nat);
        lemma_across_row(width, height, n - 1, starts(width));
        assert(taken(width, starts(width)) == per_row);
        lemma_same_reach(width, height, n - 1, per_row as int, 0, 0, n as int, 0, 0, 0);
        assert(n * per_row == (n - 1) * per_row + per_row) by (nonlinear_arith);
    } else {
        let start = reached(width, height, 0, 0, 0, 0);
        assert(start.seen =~= Set::<usize>::empty());
        assert(0 * per_row == 0);
    }
}

/// The upright desks that the scan down has consumed in row `s` before
/// column `k`.
pub open spec fn uprights_in_row(width: nat, height: nat, s: int, k: int) -> int {
    if s % 3 == 0 && s < 3 * (height / 3) && k > 3 * (width / 3) {
        k - 3 * (width / 3)
    } else {
        0
    }
}

/// The scan down row `s` consumes the upright desks that start in it.
pub proof fn lemma_down_row(width: nat, height: nat, s: int, k: nat)
    requires
        width * height <= usize::MAX,
        0 <= s < starts(height),
        k <= width,
        reached(width, height, height as int, 0, s, 0).seen.finite(),
    ensures
        scan_row(reached(width, height, height as int, 0, s, 0), s, k, true) == reached(
            width,
            height,
            height as int,
            0,
            s,
            k as int,
        ),
        reached(width, height, height as int, 0, s, k as int).seen.finite(),
        reached(width, height, height as int, 0, s, k as int).seen.len() == reached(
            width,
            height,
            height as int,
            0,
            s,
            0,
        ).seen.len() + uprights_in_row(width, height, s, k as int),
    decreases k,
{
    if k > 0 {
        lemma_down_row(width, height, s, (k - 1) as nat);
        let per_row = (width / 3) as int;
        let bands = (height / 3) as int;
        let h = height as int;
        let c = k - 1;
        let a = reached(width, height, h, 0, s, c);
        let t = reached(width, height, h, 0, s, k as int);
        lemma_table_cell(width, height, s, c);
        lemma_table_cell(width, height, s + 1, c);
        lemma_table_cell(width, height, s + 2, c);
        if s % 3 == 0 && s < 3 * bands && c >= 3 * per_row {
            let band = s / 3;
            assert(0 <= band * width) by (nonlinear_arith)
                requires
                    0 <= band,
                    0 <= width,
            ;
            let label = table_label(width, height, s, c) as usize;
            assert(table_label(width, height, s, c) == upright_label(width, height, band, c));
            assert(table_label(width, height, s + 1, c) == table_label(width, height, s, c));
            assert(table_label(width, height, s + 2, c) == table_label(width, height, s, c));
            assert(a.grid[s][c] == label && a.grid[s + 1][c] == label && a.grid[s + 2][c]
                == label);
            assert(desk_at(a.grid, s, c, true));
            assert(!a.seen.contains(label)) by {
                if a.seen.contains(label) {
                    if exists|i: int, d: int|
                        lying_before(width, height, h, 0, i, d) && #[trigger] lying_label(
                            width,
                            height,
                            i,
                            d,
                        ) == label {
                        let (i, d) = choose|i: int, d: int|
                            lying_before(width, height, h, 0, i, d) && #[trigger] lying_label(
                                width,
                                height,
                                i,
                                d,
                            ) == label;
                        lemma_tables_are_triples(width, height, s, c, i, 3 * d);
                    } else {
                        let (u, v) = choose|u: int, v: int|
                            upright_before(width, height, s, c, u, v) && #[trigger] upright_label(
                                width,
                                height,
                                u,
                                v,
                            ) == label;
                        lemma_tables_are_triples(width, height, s, c, 3 * u, v);
                    }
                }
            }
            assert forall|x: usize| a.seen.insert(label).contains(x) == t.seen.contains(x) by {
                if x == label {
                    assert(upright_before(width, height, s, k as int, band, c));
                    assert(upright_label(width, height, band, c) == x);
                }
                if a.seen.contains(x) {
                    if exists|i: int, d: int|
                        lying_before(width, height, h, 0, i, d) && #[trigger] lying_label(
                            width,
                            height,
                            i,
                            d,
                        ) == x {
                    } else {
                        let (u, v) = choose|u: int, v: int|
                            upright_before(width, height, s, c, u, v) && #[trigger] upright_label(
                                width,
                                height,
                                u,
                                v,
                            ) == x;
                        assert(upright_before(width, height, s, k as int, u, v));
                    }
                }
                if t.seen.contains(x) && x != label {
                    if exists|i: int, d: int|
                        lying_before(width, height, h, 0, i, d) && #[trigger] lying_label(
                            width,
                            height,
                            i,
                            d,
                        ) == x {
                    } else {
                        let (u, v) = choose|u: int, v: int|
                            upright_before(width, height, s, k as int, u, v)
                                && #[trigger] upright_label(width, height, u, v) == x;
                        assert(upright_before(width, height, s, c, u, v));
                    }
                }
            }
            assert(a.seen.insert(label) =~= t.seen);
            let after = cleared(a.grid, s, c, true);
            assert forall|i: int| 0 <= i < height implies after[i] =~= t.grid[i] by {}
            assert(after =~= t.grid);
            assert(step(a, s, c, true) == t);
        } else {
            assert(a.grid[s][c] == 0) by {
                if c < 3 * per_row {
                    assert(lying_before(width, height, h, 0, s, c / 3));
                } else if s < 3 * bands {
                    assert(upright_before(width, height, s, c, s / 3, c));
                }
            }
            assert(!desk_at(a.grid, s, c, true));
            lemma_same_reach(width, height, h, 0, s, c, h, 0, s, k as int);
        }
    }
}

/// The upright desks of the bands whose first row lies above row `s`.
pub open spec fn uprights_above(width: nat, height: nat, s: int) -> int {
    (width % 3) * if (s + 2) / 3 < height / 3 {
        (s + 2) / 3
    } else {
        (height / 3) as int
    }
}

/// The scan down the first `n` rows consumes the upright desks that start in
/// them.
pub proof fn lemma_down_rows(width: nat, height: nat, n: nat)
    requires
        width * height <= usize::MAX,
        n <= starts(height),
    ensures
        scan_rows(reached(width, height, height as int, 0, 0, 0), n, width, true) == reached(
            width,
            height,
            height as int,
            0,
            n as int,
            0,
        ),
        reached(width, height, height as int, 0, n as int, 0).seen.finite(),
        reached(width, height, height as int, 0, n as int, 0).seen.len() == height * (width / 3)
            + uprights_above(width, height, n as int),
    decreases n,
{
    let h = height as int;
    if n > 0 {
        lemma_down_rows(width, height, (n - 1) as nat);
        lemma_down_row(width, height, n - 1, width);
        lemma_same_reach(width, height, h, 0, n - 1, width as int, h, 0, n as int, 0);
        let s = n - 1;
        let corner = (width % 3) as int;
        let bands = (height / 3) as int;
        let before = if (s + 2) / 3 < bands {
            (s + 2) / 3
        } else {
            bands
        };
        let now = if (s + 3) / 3 < bands {
            (s + 3) / 3
        } else {
            bands
        };
        assert(corner * now == corner * before + if s % 3 == 0 && s < 3 * bands {
            corner
        } else {
            0
        }) by (nonlinear_arith)
            requires
                now == before + if s % 3 == 0 && s < 3 * bands {
                    1int
                } else {
                    0int
                },
        ;
    } else {
        lemma_across_rows(width, height, height);
        assert((width % 3) * 0 == 0);
    }
}

/// The verifier consumes the grid of a room whole: it meets no label twice,
/// it leaves no cell over, and it consumes as many desks as the grid holds,
/// one for every three cells in a line that share a label.
pub proof fn lemma_banded_grid_is_consumed(width: nat, height: nat)
    requires
        width * height <= usize::MAX,
    ensures
        consumed(table_rows(width, height), width, height).duplicate is None,
        first_left(consumed(table_rows(width, height), width, height).grid) is None,
        consumed(table_rows(width, height), width, height).seen.finite(),
        consumed(table_rows(width, height), width, height).seen.len() == (height / 3) * width
            + (height % 3) * (width / 3),
{
    let h = height as int;
    let grid = table_rows(width, height);
    let start = Scan { grid, seen: Set::empty(), duplicate: None };
    let first = reached(width, height, 0, 0, 0, 0);
    assert forall|i: int| 0 <= i < height implies first.grid[i] =~= grid[i] by {
        assert forall|c: int| 0 <= c < width implies first.grid[i][c] == grid[i][c] by {
            lemma_table_cell(width, height, i, c);
        }
        if width > 0 {
            lemma_table_cell(width, height, i, 0);
        } else {
            assert(grid[i] =~= Seq::<usize>::empty());
        }
    }
    assert(first.grid =~= grid);
    assert(first.seen =~= Set::<usize>::empty());
    assert(first == start);
    lemma_across_rows(width, height, height);
    lemma_down_rows(width, height, starts(height));
    let last = reached(width, height, h, 0, starts(height) as int, 0);
    assert(consumed(grid, width, height) == last);
    let per_row = (width / 3) as int;
    let bands = (height / 3) as int;
    assert forall|i: int, c: int| 0 <= i < last.grid.len() && 0 <= c < last.grid[i].len() implies #[trigger] last.grid[i][c]
        == 0 by {
        if c < 3 * per_row {
            assert(lying_before(width, height, h, 0, i, c / 3));
        } else if i < 3 * bands {
            assert(upright_before(width, height, starts(height) as int, 0, i / 3, c));
        }
    }
    lemma_empty_grid(last.grid);
    assert(uprights_above(width, height, starts(height) as int) == (width % 3) * bands);
    assert(height * per_row + (width % 3) * bands == bands * width + (height % 3) * per_row)
        by (nonlinear_arith)
        requires
            height == 3 * bands + height % 3,
            width == 3 * per_row + width % 3,
    ;
}

/// The number of desks in the grid of a room: a band takes as many as the
/// room is wide, a row below the last band as many as lie end to end in it.
pub open spec fn table_total(width: nat, height: nat) -> nat {
    (height / 3) * width + (height % 3) * (width / 3)
}

/// The verifier accepts the grid of the banded variant for a room that asks
/// for as many desks as the grid holds.
pub proof fn lemma_banded_grid_verifies(room: Room)
    requires
        room.width * room.height <= usize::MAX,
        room.desk_count == table_total(room.width as nat, room.height as nat),
    ensures
        verdict(room, table_rows(room.width as nat, room.height as nat)) == Ok::<
            (),
            VerifyError,
        >(()),
        room.width >= 1 && room.height >= 1 ==> text_verdict(
            room,
            grid_text(table_rows(room.width as nat, room.height as nat)),
        ) == Ok::<(), VerifyError>(()),
{
    let width = room.width as nat;
    let height = room.height as nat;
    let grid = table_rows(width, height);
    lemma_banded_grid_is_consumed(width, height);
    assert forall|i: int| 0 <= i < grid.len() implies (#[trigger] grid[i]).len() == width by {
        assert(width == 3 * (width / 3) + width % 3);
    }
    assert(is_table(grid, width, height));
    lemma_first_bad_row(grid, width);
    if room.width >= 1 && room.height >= 1 {
        lemma_plain_text_reads_back(room, grid);
    }
}

} // verus!

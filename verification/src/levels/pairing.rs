//! The occupied cells of the constructions with desks of two cells pair up:
//! every occupied cell has one mate beside it, above it or below it, and is
//! the mate of its mate. So the grid splits into desks that do not overlap,
//! and half the occupied cells is the number of desks.

use vstd::prelude::*;
use vstd::arithmetic::div_mod::lemma_fundamental_div_mod_converse;
use crate::grid::{
    copies, filled, is_rect, mirrored, repeated, reversed, turned, EMPTY, OCCUPIED,
};
use crate::levels::level5::{
    candidate_rows, closing_row, full_block, grouped_row, lemma_long_block_rect,
    lemma_long_rows_rect, long_block, long_period, long_rows, long_tail,
};
use crate::pattern::{
    alternating, lemma_repeated_len, lemma_strip_rows_rect, lying_row, strip_block, strip_rows,
    strip_tail, upright_rows,
};

verus! {

/// Whether two cells are neighbours in a row or in a column.
pub open spec fn beside(r: int, c: int, r2: int, c2: int) -> bool {
    ||| r2 == r && (c2 == c + 1 || c2 == c - 1)
    ||| c2 == c && (r2 == r + 1 || r2 == r - 1)
}

/// Whether a cell of a grid is occupied.
pub open spec fn is_occupied(rows: Seq<Seq<u8>>, r: int, c: int) -> bool {
    rows[r][c] == OCCUPIED
}

/// Whether `mate` pairs the occupied cells of a grid into desks of two
/// cells: the mate of an occupied cell is an occupied neighbour inside the
/// grid whose own mate is that cell.
pub open spec fn pairs_up(
    rows: Seq<Seq<u8>>,
    width: nat,
    height: nat,
    mate: spec_fn(int, int) -> (int, int),
) -> bool {
    forall|r: int, c: int|
        0 <= r < height && 0 <= c < width && #[trigger] is_occupied(rows, r, c) ==> {
            let m = mate(r, c);
            &&& 0 <= m.0 < height
            &&& 0 <= m.1 < width
            &&& is_occupied(rows, m.0, m.1)
            &&& beside(r, c, m.0, m.1)
            &&& mate(m.0, m.1) == (r, c)
        }
}

/// Whether the desks that `mate` makes stand apart: an occupied cell has no
/// occupied neighbour but its mate.
pub open spec fn stands_apart(
    rows: Seq<Seq<u8>>,
    width: nat,
    height: nat,
    mate: spec_fn(int, int) -> (int, int),
) -> bool {
    forall|r: int, c: int, r2: int, c2: int|
        0 <= r < height && 0 <= c < width && 0 <= r2 < height && 0 <= c2 < width && beside(
            r,
            c,
            r2,
            c2,
        ) && #[trigger] is_occupied(rows, r, c) && #[trigger] is_occupied(rows, r2, c2) ==> mate(
            r,
            c,
        ) == (r2, c2)
}

/// A cell of a repeated pattern is the cell of the pattern at the same place
/// in its turn.
pub proof fn lemma_repeated_cell(pattern: Seq<u8>, n: nat, i: int)
    requires
        pattern.len() > 0,
        0 <= i < n * pattern.len(),
    ensures
        repeated(pattern, n)[i] == pattern[i % (pattern.len() as int)],
    decreases n,
{
    let len = pattern.len() as int;
    if n == 0 {
        assert(n * len == 0);
    }
    lemma_repeated_len(pattern, n);
    lemma_repeated_len(pattern, (n - 1) as nat);
    assert(n * len == (n - 1) * len + len) by (nonlinear_arith);
    if i < (n - 1) * len {
        lemma_repeated_cell(pattern, (n - 1) as nat, i);
    } else {
        lemma_fundamental_div_mod_converse(i, len, n - 1, i - (n - 1) * len);
    }
}

/// A row of stacked copies of a block is the row of the block at the same
/// place in its turn.
pub proof fn lemma_copies_row(block: Seq<Seq<u8>>, n: nat, i: int)
    requires
        block.len() > 0,
        0 <= i < n * block.len(),
    ensures
        copies(block, n).len() == n * block.len(),
        copies(block, n)[i] == block[i % (block.len() as int)],
    decreases n,
{
    let len = block.len() as int;
    if n == 0 {
        assert(n * len == 0);
    }
    lemma_copies_len(block, n);
    lemma_copies_len(block, (n - 1) as nat);
    assert(n * len == (n - 1) * len + len) by (nonlinear_arith);
    if i < (n - 1) * len {
        lemma_copies_row(block, (n - 1) as nat, i);
    } else {
        lemma_fundamental_div_mod_converse(i, len, n - 1, i - (n - 1) * len);
    }
}

/// A block stacked `n` times has `n` times its rows.
pub proof fn lemma_copies_len(block: Seq<Seq<u8>>, n: nat)
    ensures
        copies(block, n).len() == n * block.len(),
    decreases n,
{
    if n > 0 {
        lemma_copies_len(block, (n - 1) as nat);
        assert(n * block.len() == (n - 1) * block.len() + block.len()) by (nonlinear_arith);
    } else {
        assert(0 * block.len() == 0);
    }
}

/// The alternating row is occupied in its even columns.
pub proof fn lemma_alternating_cell(width: nat, c: int)
    requires
        0 <= c < width,
    ensures
        alternating(width)[c] == if c % 2 == 0 {
            OCCUPIED
        } else {
            EMPTY
        },
{
    let pair = seq![OCCUPIED, EMPTY];
    lemma_repeated_len(pair, width / 2);
    assert(pair.len() == 2);
    assert((width / 2) * 2 == 2 * (width / 2));
    if c < 2 * (width / 2) {
        lemma_repeated_cell(pair, width / 2, c);
    }
}

/// A row of lying desks of two cells, each followed by an empty cell, is
/// occupied in the first two of every three columns.
pub proof fn lemma_groups_cell(n: nat, c: int)
    requires
        0 <= c < 3 * n,
    ensures
        repeated(seq![OCCUPIED, OCCUPIED, EMPTY], n).len() == 3 * n,
        repeated(seq![OCCUPIED, OCCUPIED, EMPTY], n)[c] == if c % 3 != 2 {
            OCCUPIED
        } else {
            EMPTY
        },
{
    let group = seq![OCCUPIED, OCCUPIED, EMPTY];
    lemma_repeated_len(group, n);
    assert(group.len() == 3);
    assert(n * 3 == 3 * n);
    lemma_repeated_cell(group, n, c);
}

/// Whether the strip construction with desks of two cells occupies a cell:
/// the even columns of the first two rows of every three, and in a last row
/// that stands alone the first two of every three columns.
pub open spec fn strip_occupied(width: nat, height: nat, r: int, c: int) -> bool {
    if height % 3 == 1 && r == height - 1 {
        c % 3 != 2 && !(width % 3 == 1 && c == width - 1)
    } else {
        r % 3 != 2 && c % 2 == 0
    }
}

/// The mate of a cell in the strip construction: the cell below or above in
/// an upright desk, the cell beside it in a lying desk.
pub open spec fn strip_mate(width: nat, height: nat, r: int, c: int) -> (int, int) {
    if height % 3 == 1 && r == height - 1 {
        if c % 3 == 0 {
            (r, c + 1)
        } else {
            (r, c - 1)
        }
    } else if r % 3 == 0 {
        (r + 1, c)
    } else {
        (r - 1, c)
    }
}

/// The mates of the strip construction.
pub open spec fn strip_mates(width: nat, height: nat) -> spec_fn(int, int) -> (int, int) {
    |r: int, c: int| strip_mate(width, height, r, c)
}

/// The cells of the strip construction in closed form.
pub proof fn lemma_strip_cell(width: nat, height: nat, r: int, c: int)
    requires
        0 <= r < height,
        0 <= c < width,
    ensures
        is_occupied(strip_rows(width, height, 2), r, c) == strip_occupied(width, height, r, c),
{
    let block = strip_block(width, 2);
    let blocks = height / 3;
    let rest = height % 3;
    let head = copies(block, blocks);
    let tail = strip_tail(width, rest, 2);
    assert(block.len() == 3);
    lemma_copies_len(block, blocks);
    assert(blocks * 3 == 3 * blocks);
    lemma_alternating_cell(width, c);
    let rows = strip_rows(width, height, 2);
    if r < 3 * blocks {
        lemma_copies_row(block, blocks, r);
        assert(rows[r] == block[r % 3]);
        assert(upright_rows(width, 2)[0] == alternating(width));
        assert(upright_rows(width, 2)[1] == alternating(width));
    } else {
        assert(rows[r] == tail[r - 3 * blocks]);
        if rest == 2 {
            assert(tail[r - 3 * blocks] == alternating(width));
        } else {
            assert(tail[0] == lying_row(width, 2));
            let group = filled(OCCUPIED, 2).push(EMPTY);
            assert(group =~= seq![OCCUPIED, OCCUPIED, EMPTY]);
            if c < 3 * (width / 3) {
                lemma_groups_cell(width / 3, c);
            } else {
                lemma_repeated_len(group, width / 3);
                assert((width / 3) * 3 == 3 * (width / 3));
            }
        }
    }
}

/// The strip construction with desks of two cells splits into desks: every
/// occupied cell has exactly one occupied neighbour, its mate.
pub proof fn lemma_strip_rows_pair(width: nat, height: nat)
    ensures
        pairs_up(
            strip_rows(width, height, 2),
            width,
            height,
            strip_mates(width, height),
        ),
        stands_apart(
            strip_rows(width, height, 2),
            width,
            height,
            strip_mates(width, height),
        ),
{
    let rows = strip_rows(width, height, 2);
    let mate = strip_mates(width, height);
    assert forall|r: int, c: int|
        0 <= r < height && 0 <= c < width && #[trigger] is_occupied(rows, r, c) implies {
        let m = mate(r, c);
        &&& 0 <= m.0 < height
        &&& 0 <= m.1 < width
        &&& is_occupied(rows, m.0, m.1)
        &&& beside(r, c, m.0, m.1)
        &&& mate(m.0, m.1) == (r, c)
    } by {
        lemma_strip_cell(width, height, r, c);
        let m = strip_mate(width, height, r, c);
        assert(strip_occupied(width, height, r, c));
        assert(mate(r, c) == m);
        if height % 3 == 1 && r == height - 1 {
            assert(0 <= m.1 < width);
        } else {
            assert(r % 3 == 0 || r % 3 == 1);
            assert(0 <= m.0 < height);
        }
        assert(0 <= m.0 < height && 0 <= m.1 < width);
        lemma_strip_cell(width, height, m.0, m.1);
    }
    assert forall|r: int, c: int, r2: int, c2: int|
        0 <= r < height && 0 <= c < width && 0 <= r2 < height && 0 <= c2 < width && beside(
            r,
            c,
            r2,
            c2,
        ) && #[trigger] is_occupied(rows, r, c) && #[trigger] is_occupied(
            rows,
            r2,
            c2,
        ) implies mate(r, c) == (r2, c2) by {
        lemma_strip_cell(width, height, r, c);
        lemma_strip_cell(width, height, r2, c2);
    }
}

/// The row of the long pattern that stands at row `r`: zero to five for the
/// rows of a full block, six for the empty row that ends a period, seven for
/// a single row of lying desks. The last row of a tail of three or five rows
/// is the closing row of a half-block.
pub open spec fn long_kind(height: nat, r: int) -> int {
    let rest = height % 7;
    if r >= 7 * (height / 7) && rest % 2 == 1 && r % 7 == rest - 1 {
        if rest == 1 {
            7
        } else {
            2
        }
    } else {
        r % 7
    }
}

/// Whether a row of the half-block is occupied in column `c`.
pub open spec fn half_cell(width: nat, kind: int, c: int) -> bool {
    let even = width - width % 2;
    if kind == 0 {
        (c < even - 2 && c % 2 == 0) || c == even - 2 || c == even - 1
    } else if kind == 1 {
        c < even - 2 && c % 2 == 0
    } else {
        c == even - 2 || c == even - 1
    }
}

/// Whether the long construction occupies a cell.
pub open spec fn long_occupied(width: nat, height: nat, r: int, c: int) -> bool {
    let kind = long_kind(height, r);
    if width < 2 || kind == 6 {
        false
    } else if kind <= 2 {
        half_cell(width, kind, c)
    } else if kind <= 5 {
        half_cell(width, 5 - kind, width - 1 - c)
    } else {
        c < 3 * (width / 3) && c % 3 != 2
    }
}

/// The mate of a cell in the long construction: the cell below or above in
/// an upright desk, the cell beside it in a lying desk.
pub open spec fn long_mate(width: nat, height: nat, r: int, c: int) -> (int, int) {
    let even = width - width % 2;
    let kind = long_kind(height, r);
    let back = width - 1 - c;
    if kind == 0 {
        if c < even - 2 {
            (r + 1, c)
        } else if c == even - 2 {
            (r, c + 1)
        } else {
            (r, c - 1)
        }
    } else if kind == 1 {
        (r - 1, c)
    } else if kind == 2 {
        if c == even - 2 {
            (r, c + 1)
        } else {
            (r, c - 1)
        }
    } else if kind == 3 {
        if back == even - 2 {
            (r, c - 1)
        } else {
            (r, c + 1)
        }
    } else if kind == 4 {
        (r + 1, c)
    } else if kind == 5 {
        if back < even - 2 {
            (r - 1, c)
        } else if back == even - 2 {
            (r, c - 1)
        } else {
            (r, c + 1)
        }
    } else if c % 3 == 0 {
        (r, c + 1)
    } else {
        (r, c - 1)
    }
}

/// The mates of the long construction.
pub open spec fn long_mates(width: nat, height: nat) -> spec_fn(int, int) -> (int, int) {
    |r: int, c: int| long_mate(width, height, r, c)
}

/// The row of the long pattern of a kind.
pub open spec fn pattern_row(width: nat, kind: int) -> Seq<u8> {
    if kind <= 2 {
        long_block(width)[kind]
    } else if kind <= 5 {
        reversed(long_block(width)[5 - kind])
    } else if kind == 6 {
        filled(EMPTY, width)
    } else {
        grouped_row(width)
    }
}

/// The cells of the half-block in closed form.
pub proof fn lemma_half_cell(width: nat, kind: int, c: int)
    requires
        width >= 2,
        0 <= kind <= 2,
        0 <= c < width,
    ensures
        long_block(width)[kind].len() == width,
        (long_block(width)[kind][c] == OCCUPIED) == half_cell(width, kind, c),
{
    let pairs = ((width - 2) / 2) as nat;
    let pair = seq![OCCUPIED, EMPTY];
    lemma_long_block_rect(width);
    lemma_repeated_len(pair, pairs);
    assert(pair.len() == 2);
    assert(pairs * 2 == 2 * pairs);
    if c < 2 * pairs {
        lemma_repeated_cell(pair, pairs, c);
    }
    assert(closing_row(width) == long_block(width)[2]);
}

/// The rows of the long construction are the rows of its pattern.
pub proof fn lemma_long_row(width: nat, height: nat, r: int)
    requires
        width >= 2,
        0 <= r < height,
    ensures
        long_rows(width, height)[r] == pattern_row(width, long_kind(height, r)),
{
    let half = long_block(width);
    let full = full_block(width);
    let period = long_period(width);
    let blocks = height / 7;
    let rest = height % 7;
    assert(half.len() == 3);
    assert(full.len() == 6 && period.len() == 7);
    assert forall|q: int| 0 <= q < 6 implies #[trigger] full[q] == pattern_row(width, q) by {
        if q >= 3 {
            assert(full[q] == mirrored(half)[q - 3]);
        } else {
            assert(full[q] == half[q]);
        }
    }
    lemma_copies_len(period, blocks);
    assert(blocks * 7 == 7 * blocks);
    let rows = long_rows(width, height);
    if r < 7 * blocks {
        lemma_copies_row(period, blocks, r);
        let q = r % 7;
        if q < 6 {
            assert(period[q] == full[q]);
        }
    } else {
        let tail = long_tail(width, rest);
        let t = r - 7 * blocks;
        assert(rows[r] == tail[t]);
        assert(t == r % 7);
        if rest % 2 == 0 {
            assert(tail[t] == full[t]);
        } else if rest == 1 {
        } else if t < rest - 1 {
            assert(tail[t] == full[t]);
        } else {
            assert(closing_row(width) == half[2]);
        }
    }
}

/// The cells of the long construction in closed form.
pub proof fn lemma_long_cell(width: nat, height: nat, r: int, c: int)
    requires
        0 <= r < height,
        0 <= c < width,
    ensures
        is_occupied(long_rows(width, height), r, c) == long_occupied(width, height, r, c),
{
    if width >= 2 {
        lemma_long_row(width, height, r);
        let kind = long_kind(height, r);
        if kind <= 2 {
            lemma_half_cell(width, kind, c);
        } else if kind <= 5 {
            lemma_half_cell(width, 5 - kind, width - 1 - c);
        } else if kind == 7 {
            if c < 3 * (width / 3) {
                lemma_groups_cell(width / 3, c);
            } else {
                lemma_repeated_len(seq![OCCUPIED, OCCUPIED, EMPTY], width / 3);
                assert(seq![OCCUPIED, OCCUPIED, EMPTY].len() == 3);
                assert((width / 3) * 3 == 3 * (width / 3));
            }
        }
    }
}

/// The mate of an occupied cell of the long pattern is an occupied
/// neighbour in the room, and the cell is the mate of its mate.
pub proof fn lemma_long_mate(width: nat, height: nat, r: int, c: int)
    requires
        0 <= r < height,
        0 <= c < width,
        long_occupied(width, height, r, c),
    ensures
        0 <= long_mate(width, height, r, c).0 < height,
        0 <= long_mate(width, height, r, c).1 < width,
        long_occupied(
            width,
            height,
            long_mate(width, height, r, c).0,
            long_mate(width, height, r, c).1,
        ),
        beside(r, c, long_mate(width, height, r, c).0, long_mate(width, height, r, c).1),
        long_mate(
            width,
            height,
            long_mate(width, height, r, c).0,
            long_mate(width, height, r, c).1,
        ) == (r, c),
{
    let kind = long_kind(height, r);
    assert(0 <= kind <= 7 && kind != 6);
    if kind == 0 || kind == 4 {
        assert(r + 1 < height);
        assert(long_kind(height, r + 1) == kind + 1);
    } else if kind == 1 || kind == 5 {
        assert(r >= 1);
        assert(long_kind(height, r - 1) == kind - 1);
    }
}

/// The long construction splits into desks of two cells that do not
/// overlap: every occupied cell has a mate beside, above or below it, and is
/// the mate of its mate. Where the room is two, three or five cells wide,
/// the closing rows of a half-block and of its mirror image touch.
pub proof fn lemma_long_rows_pair(width: nat, height: nat)
    ensures
        pairs_up(
            long_rows(width, height),
            width,
            height,
            long_mates(width, height),
        ),
{
    let rows = long_rows(width, height);
    let mate = long_mates(width, height);
    assert forall|r: int, c: int|
        0 <= r < height && 0 <= c < width && #[trigger] is_occupied(rows, r, c) implies {
        let m = mate(r, c);
        &&& 0 <= m.0 < height
        &&& 0 <= m.1 < width
        &&& is_occupied(rows, m.0, m.1)
        &&& beside(r, c, m.0, m.1)
        &&& mate(m.0, m.1) == (r, c)
    } by {
        lemma_long_cell(width, height, r, c);
        lemma_long_mate(width, height, r, c);
        let m = long_mate(width, height, r, c);
        assert(mate(r, c) == m);
        assert(mate(m.0, m.1) == long_mate(width, height, m.0, m.1));
        lemma_long_cell(width, height, m.0, m.1);
    }
}

/// The mates of a turned grid: the mates of the grid, turned with it.
pub open spec fn turned_mates(mate: spec_fn(int, int) -> (int, int), height: nat) -> spec_fn(
    int,
    int,
) -> (int, int) {
    |x: int, y: int|
        {
            let m = mate(height - 1 - y, x);
            (m.1, height - 1 - m.0)
        }
}

/// A grid that splits into desks still does so when it is turned.
pub proof fn lemma_turned_pairs_up(
    rows: Seq<Seq<u8>>,
    width: nat,
    height: nat,
    mate: spec_fn(int, int) -> (int, int),
)
    requires
        is_rect(rows, width, height),
        pairs_up(rows, width, height, mate),
    ensures
        pairs_up(turned(rows, width, height), height, width, turned_mates(mate, height)),
{
    let out = turned(rows, width, height);
    let there = turned_mates(mate, height);
    assert forall|x: int, y: int|
        0 <= x < width && 0 <= y < height && #[trigger] is_occupied(out, x, y) implies {
        let m = there(x, y);
        &&& 0 <= m.0 < width
        &&& 0 <= m.1 < height
        &&& is_occupied(out, m.0, m.1)
        &&& beside(x, y, m.0, m.1)
        &&& there(m.0, m.1) == (x, y)
    } by {
        assert(is_occupied(rows, height - 1 - y, x));
    }
}

/// The desks of a turned grid stand apart when those of the grid do.
pub proof fn lemma_turned_stands_apart(
    rows: Seq<Seq<u8>>,
    width: nat,
    height: nat,
    mate: spec_fn(int, int) -> (int, int),
)
    requires
        is_rect(rows, width, height),
        stands_apart(rows, width, height, mate),
    ensures
        stands_apart(turned(rows, width, height), height, width, turned_mates(mate, height)),
{
    let out = turned(rows, width, height);
    let there = turned_mates(mate, height);
    assert forall|x: int, y: int, x2: int, y2: int|
        0 <= x < width && 0 <= y < height && 0 <= x2 < width && 0 <= y2 < height && beside(
            x,
            y,
            x2,
            y2,
        ) && #[trigger] is_occupied(out, x, y) && #[trigger] is_occupied(
            out,
            x2,
            y2,
        ) implies there(x, y) == (x2, y2) by {
        assert(is_occupied(rows, height - 1 - y, x));
        assert(is_occupied(rows, height - 1 - y2, x2));
    }
}

/// The mates of each construction, in the order in which they compete.
pub open spec fn candidate_mates(width: nat, height: nat, k: int) -> spec_fn(int, int) -> (
    int,
    int,
) {
    if k == 0 {
        long_mates(width, height)
    } else if k == 1 {
        turned_mates(long_mates(height, width), width)
    } else if k == 2 {
        strip_mates(width, height)
    } else {
        turned_mates(strip_mates(height, width), width)
    }
}

/// The grid of every construction splits into desks of two cells that do not
/// overlap, so the desks it counts are whole desks; the desks of the strip
/// constructions also stand apart from one another.
pub proof fn lemma_candidates_pair(width: nat, height: nat, k: int)
    requires
        0 <= k < 4,
    ensures
        pairs_up(candidate_rows(width, height, k), width, height, candidate_mates(width, height, k)),
        k >= 2 ==> stands_apart(
            candidate_rows(width, height, k),
            width,
            height,
            candidate_mates(width, height, k),
        ),
{
    if k == 0 {
        lemma_long_rows_pair(width, height);
    } else if k == 1 {
        lemma_long_rows_pair(height, width);
        lemma_long_rows_rect(height, width);
        lemma_turned_pairs_up(long_rows(height, width), height, width, long_mates(height, width));
    } else if k == 2 {
        lemma_strip_rows_pair(width, height);
    } else {
        lemma_strip_rows_pair(height, width);
        lemma_strip_rows_rect(height, width, 2);
        lemma_turned_pairs_up(
            strip_rows(height, width, 2),
            height,
            width,
            strip_mates(height, width),
        );
        lemma_turned_stands_apart(
            strip_rows(height, width, 2),
            height,
            width,
            strip_mates(height, width),
        );
    }
}

} // verus!

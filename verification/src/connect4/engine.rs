//! Pure Connect Four rules: gravity drops on a 7×6 board, four-in-a-row
//! wins in every direction, draw when the grid fills. Row 0 is the bottom
//! row internally so drop math stays trivial; rendering flips it.

use vstd::prelude::*;

verus! {

pub const COLS: usize = 7;

pub const ROWS: usize = 6;

#[derive(Clone, Copy, PartialEq, Eq, Debug, Structural)]
pub enum Side {
    Black,
    White,
}

/// The other seat.
pub open spec fn opposite_of(s: Side) -> Side {
    match s {
        Side::Black => Side::White,
        Side::White => Side::Black,
    }
}

impl Side {
    pub fn opposite(self) -> (r: Self)
        ensures
            r == opposite_of(self),
    {
        match self {
            Side::Black => Side::White,
            Side::White => Side::Black,
        }
    }

    /// Filled-disc glyph used across UIs.
    pub fn symbol(self) -> (r: char)
        ensures
            r == '\u{25cf}',
    {
        '\u{25cf}'
    }
}

#[derive(Clone, Copy, PartialEq, Eq, Debug, Structural)]
pub enum Status {
    Ongoing,
    Won(Side),
    Draw,
}

impl Status {
    /// Convenience for gating input and automation.
    pub fn is_ongoing(self) -> (r: bool)
        ensures
            r == (self is Ongoing),
    {
        match self {
            Status::Ongoing => true,
            _ => false,
        }
    }
}

/// Grid position of the cell at `(row, col)` (row 0 at the bottom).
pub open spec fn cell_index(row: int, col: int) -> int {
    col * ROWS + row
}

/// `(row, col)` lies on the board.
pub open spec fn on_board(row: int, col: int) -> bool {
    0 <= row < ROWS && 0 <= col < COLS
}

/// Number of consecutive `side` discs starting at `(row, col)` and walking
/// in direction `(dr, dc)`, looking at most `k` cells.
pub open spec fn run(
    grid: Seq<Option<Side>>,
    row: int,
    col: int,
    dr: int,
    dc: int,
    side: Side,
    k: nat,
) -> nat
    decreases k,
{
    if k == 0 || !on_board(row, col) || grid[cell_index(row, col)] != Some(side) {
        0
    } else {
        1 + run(grid, row + dr, col + dc, dr, dc, side, (k - 1) as nat)
    }
}

/// Length of the line of `side` discs through `(row, col)` along direction
/// `(dr, dc)`, counting the cell itself. No line on a 7×6 board is longer
/// than seven cells, so each arm looks at most seven cells away.
pub open spec fn line_len(grid: Seq<Option<Side>>, row: int, col: int, dr: int, dc: int, side: Side) -> int {
    (1 + run(grid, row - dr, col - dc, -dr, -dc, side, 7) + run(grid, row + dr, col + dc, dr, dc, side, 7)) as int
}

/// A disc of `side` at `(row, col)` completes four in a row: vertically,
/// horizontally, or on either diagonal.
pub open spec fn lands_four_spec(grid: Seq<Option<Side>>, row: int, col: int, side: Side) -> bool {
    ||| line_len(grid, row, col, 1, 0, side) >= 4
    ||| line_len(grid, row, col, 0, 1, side) >= 4
    ||| line_len(grid, row, col, 1, 1, side) >= 4
    ||| line_len(grid, row, col, 1, -1, side) >= 4
}

/// Columns `0..n` whose height leaves room, in natural order.
pub open spec fn open_columns_upto(heights: Seq<usize>, n: int) -> Seq<usize>
    decreases n,
{
    if n <= 0 {
        Seq::empty()
    } else {
        open_columns_upto(heights, n - 1) + if heights[n - 1] < ROWS {
            seq![(n - 1) as usize]
        } else {
            Seq::empty()
        }
    }
}

/// Sum of the first `n` column heights.
pub open spec fn height_sum(heights: Seq<usize>, n: int) -> int
    decreases n,
{
    if n <= 0 {
        0
    } else {
        height_sum(heights, n - 1) + heights[n - 1]
    }
}

#[derive(Clone, Copy)]
pub struct Connect4 {
    /// Indexed `col * ROWS + row`, row 0 at the bottom.
    cells: [Option<Side>; 42],
    heights: [usize; COLS],
    turn: Side,
    status: Status,
    last_drop: Option<(usize, usize)>,
    moves: u8,
}

impl Connect4 {
    /// The 42 cells, indexed by [`cell_index`].
    pub closed spec fn grid(&self) -> Seq<Option<Side>> {
        self.cells@
    }

    /// Discs stacked in each column.
    pub closed spec fn heights(&self) -> Seq<usize> {
        self.heights@
    }

    pub closed spec fn turn_spec(&self) -> Side {
        self.turn
    }

    pub closed spec fn status_spec(&self) -> Status {
        self.status
    }

    pub closed spec fn last_drop_spec(&self) -> Option<(usize, usize)> {
        self.last_drop
    }

    /// Heights and cells agree: no column is over full, and a cell holds a
    /// disc exactly when it lies below its column's height.
    pub proof fn lemma_heights_cells(&self)
        requires
            self.wf(),
        ensures
            forall|c: int| 0 <= c < COLS ==> #[trigger] self.heights()[c] <= ROWS,
            forall|c: int, r: int|
                0 <= c < COLS && 0 <= r < ROWS ==> (#[trigger] self.grid()[cell_index(r, c)] is Some
                    <==> r < self.heights()[c]),
    {
    }

    /// A drop has exactly one outcome: two well-formed positions that both
    /// follow this one by dropping into `col` are the same.
    pub proof fn lemma_dropped_unique(&self, col: usize, a: Connect4, b: Connect4)
        requires
            self.dropped(col, a),
            self.dropped(col, b),
            a.wf(),
            b.wf(),
        ensures
            a == b,
    {
        assert(a.cells =~= b.cells);
        assert(a.heights =~= b.heights);
    }

    /// The grid has 42 cells and there are seven column heights.
    pub proof fn lemma_wf_len(&self)
        ensures
            self.grid().len() == 42,
            self.heights().len() == COLS,
    {
    }

    /// Columns fill from the bottom without gaps, and the move counter
    /// matches the number of discs.
    pub closed spec fn wf(&self) -> bool {
        &&& forall|c: int| 0 <= c < COLS ==> #[trigger] self.heights@[c] <= ROWS
        &&& forall|c: int, r: int|
            0 <= c < COLS && 0 <= r < ROWS ==> (#[trigger] self.cells@[cell_index(r, c)] is Some
                <==> r < self.heights@[c])
        &&& self.moves as int == height_sum(self.heights@, COLS as int)
    }

    /// `g` is this game after the mover's disc lands on top of column `col`:
    /// the turn passes, and the game is won by a line of four through the
    /// new disc, drawn once the grid is full, and goes on otherwise.
    pub open spec fn dropped(&self, col: usize, g: Connect4) -> bool {
        let h = self.heights()[col as int];
        let mover = self.turn_spec();
        let grid = self.grid().update(cell_index(h as int, col as int), Some(mover));
        &&& g.grid() == grid
        &&& g.heights() == self.heights().update(col as int, (h + 1) as usize)
        &&& g.last_drop_spec() == Some((h, col))
        &&& g.turn_spec() == opposite_of(mover)
        &&& g.status_spec() == if lands_four_spec(grid, h as int, col as int, mover) {
            Status::Won(mover)
        } else if forall|i: int| 0 <= i < 42 ==> #[trigger] grid[i] is Some {
            Status::Draw
        } else {
            Status::Ongoing
        }
    }

    /// A fresh game: an empty grid, Black to move.
    pub open spec fn fresh(&self) -> bool {
        &&& self.wf()
        &&& forall|i: int| 0 <= i < 42 ==> #[trigger] self.grid()[i] is None
        &&& forall|c: int| 0 <= c < COLS ==> #[trigger] self.heights()[c] == 0
        &&& self.turn_spec() == Side::Black
        &&& self.status_spec() == Status::Ongoing
        &&& self.last_drop_spec() is None
    }

    pub fn new() -> (g: Self)
        ensures
            g.wf(),
            forall|i: int| 0 <= i < 42 ==> g.grid()[i] is None,
            forall|c: int| 0 <= c < COLS ==> g.heights()[c] == 0,
            g.turn_spec() == Side::Black,
            g.status_spec() == Status::Ongoing,
            g.last_drop_spec() is None,
    {
        let g = Connect4 {
            cells: [None; 42],
            heights: [0; COLS],
            turn: Side::Black,
            status: Status::Ongoing,
            last_drop: None,
            moves: 0,
        };
        assert(height_sum(g.heights@, 7) == 0) by {
            reveal_with_fuel(height_sum, 8);
        }
        g
    }

    /// Disc at `(row, col)` counting from the bottom, or None.
    pub fn cell(&self, row: usize, col: usize) -> (r: Option<Side>)
        ensures
            r == (if row < ROWS && col < COLS {
                self.grid()[cell_index(row as int, col as int)]
            } else {
                None
            }),
    {
        if row < ROWS && col < COLS {
            self.cells[col * ROWS + row]
        } else {
            None
        }
    }

    /// Discs stacked in `col` (0 for a column off the board).
    pub fn col_height(&self, col: usize) -> (r: usize)
        ensures
            r == (if col < COLS {
                self.heights()[col as int] as int
            } else {
                0
            }),
    {
        if col < COLS {
            self.heights[col]
        } else {
            0
        }
    }

    /// Columns with free space, in natural order.
    pub fn open_columns(&self) -> (r: Vec<usize>)
        ensures
            r@ == open_columns_upto(self.heights(), COLS as int),
    {
        let mut out: Vec<usize> = Vec::new();
        let mut c: usize = 0;
        while c < COLS
            invariant
                0 <= c <= COLS,
                out@ == open_columns_upto(self.heights@, c as int),
            decreases COLS - c,
        {
            if self.heights[c] < ROWS {
                out.push(c);
            }
            assert(out@ =~= open_columns_upto(self.heights@, c + 1));
            c += 1;
        }
        out
    }

    /// Drops a disc into `col`; returns false when the game is over or the
    /// column is full. Updates win/draw status and flips the turn.
    pub fn drop(&mut self, col: usize) -> (ok: bool)
        requires
            old(self).wf(),
        ensures
            final(self).wf(),
            ok == (old(self).status_spec() is Ongoing && col < COLS && old(self).heights()[col as int]
                < ROWS),
            !ok ==> *final(self) == *old(self),
            ok ==> forall|i: int|
                0 <= i < 42 && #[trigger] old(self).grid()[i] is Some ==> final(self).grid()[i]
                    == old(self).grid()[i],
            ok ==> old(self).dropped(col, *final(self)),
            ok ==> {
                let h = filled_in(old(self).grid(), col as int, ROWS as int);
                &&& final(self).last_drop_spec() == Some((h as usize, col))
                &&& final(self).grid()[cell_index(h, col as int)] == Some(old(self).turn_spec())
                &&& final(self).turn_spec() == opposite_of(old(self).turn_spec())
                &&& forall|r: int, c: int|
                    0 <= r < ROWS && 0 <= c < COLS && (r, c) != (h, col as int)
                        ==> #[trigger] final(self).grid()[cell_index(r, c)] == old(self).grid()[cell_index(r, c)]
            },
    {
        let ongoing = match self.status {
            Status::Ongoing => true,
            _ => false,
        };
        if !ongoing || col >= COLS || self.heights[col] >= ROWS {
            return false;
        }
        let ghost old_heights = self.heights@;
        let ghost old_cells = self.cells@;
        let row = self.heights[col];
        let mover = self.turn;
        self.cells[col * ROWS + row] = Some(mover);
        assert(self.cells@ == old_cells.update(cell_index(row as int, col as int), Some(mover)));
        self.heights[col] = row + 1;
        self.last_drop = Some((row, col));
        proof {
            lemma_height_sum_bound(old_heights, 7);
            lemma_height_sum_update(old_heights, 7, col as int);
            lemma_height_sum_bound(self.heights@, 7);
            assert forall|c: int, r: int| 0 <= c < COLS && 0 <= r < ROWS implies (
            #[trigger] self.cells@[cell_index(r, c)] is Some <==> r < self.heights@[c]) by {
                if c != col {
                    assert(cell_index(r, c) != cell_index(row as int, col as int));
                }
            }
        }
        self.moves = self.moves + 1;
        let grid_full = self.moves == 42;
        proof {
            if grid_full {
                lemma_height_sum_full(self.heights@, 7);
                assert forall|i: int| 0 <= i < 42 implies #[trigger] self.cells@[i] is Some by {
                    let c = i / 6;
                    let r = i % 6;
                    assert(i == cell_index(r, c));
                    assert(self.cells@[cell_index(r, c)] is Some);
                }
            } else {
                lemma_height_sum_not_full(self.heights@, 7);
                let c = choose|c: int| 0 <= c < 7 && self.heights@[c] < 6;
                assert(self.cells@[cell_index(5, c)] is None);
            }
        }
        if lands_four(&self.cells, row, col, mover) {
            self.status = Status::Won(mover);
        } else if grid_full {
            self.status = Status::Draw;
        }
        // The turn always advances; finished games simply refuse further
        // drops, which keeps negamax's alternating-side convention intact.
        self.turn = mover.opposite();
        assert forall|i: int| 0 <= i < 42 && #[trigger] old_cells[i] is Some implies self.cells@[i] == old_cells[i] by {
            if i == cell_index(row as int, col as int) {
                assert(cell_index(row as int, col as int) == col * 6 + row);
                assert(old_cells[cell_index(row as int, col as int)] is None);
            }
        }
        proof {
            law_height_counts_discs(*old(self), col as int);
            law_drop_lands_on_top(*old(self), col, *self);
        }
        true
    }

    pub fn turn(&self) -> (r: Side)
        ensures
            r == self.turn_spec(),
    {
        self.turn
    }

    pub fn status(&self) -> (r: Status)
        ensures
            r == self.status_spec(),
    {
        self.status
    }

    pub fn last_drop(&self) -> (r: Option<(usize, usize)>)
        ensures
            r == self.last_drop_spec(),
    {
        self.last_drop
    }
}

/// What [`open_columns_upto`] holds: the columns below `n` with room.
pub proof fn lemma_open_columns(h: Seq<usize>, n: int)
    requires
        0 <= n <= h.len(),
        n <= COLS,
    ensures
        forall|i: int|
            0 <= i < open_columns_upto(h, n).len() ==> #[trigger] open_columns_upto(h, n)[i] < n
                && h[open_columns_upto(h, n)[i] as int] < ROWS,
        forall|c: usize| #[trigger]
            open_columns_upto(h, n).contains(c) <==> (c < n && h[c as int] < ROWS),
    decreases n,
{
    if n > 0 {
        lemma_open_columns(h, n - 1);
        let prev = open_columns_upto(h, n - 1);
        let s = open_columns_upto(h, n);
        let tail = if h[n - 1] < ROWS {
            seq![(n - 1) as usize]
        } else {
            Seq::<usize>::empty()
        };
        assert(s == prev + tail);
        assert forall|i: int| 0 <= i < prev.len() implies s[i] == prev[i] by {}
        assert forall|c: usize| #[trigger] s.contains(c) <==> (c < n && h[c as int] < ROWS) by {
            if s.contains(c) {
                let k = choose|k: int| 0 <= k < s.len() && s[k] == c;
                if k < prev.len() {
                    assert(prev.contains(c));
                }
            }
            if c < n && h[c as int] < ROWS {
                if c == n - 1 {
                    assert(s[prev.len() as int] == c);
                } else {
                    assert(prev.contains(c));
                    let k = choose|k: int| 0 <= k < prev.len() && prev[k] == c;
                    assert(s[k] == c);
                }
            }
        }
    }
}

/// Discs among the lowest `n` cells of column `col`.
pub open spec fn filled_in(grid: Seq<Option<Side>>, col: int, n: int) -> int
    decreases n,
{
    if n <= 0 {
        0
    } else {
        filled_in(grid, col, n - 1) + if grid[cell_index(n - 1, col)] is Some {
            1int
        } else {
            0int
        }
    }
}

proof fn lemma_filled_prefix(g: Connect4, col: int, n: int)
    requires
        g.wf(),
        0 <= col < COLS,
        0 <= n <= ROWS,
    ensures
        filled_in(g.grid(), col, n) == if n < g.heights()[col] {
            n
        } else {
            g.heights()[col] as int
        },
    decreases n,
{
    g.lemma_heights_cells();
    if n > 0 {
        lemma_filled_prefix(g, col, n - 1);
        assert(g.grid()[cell_index(n - 1, col)] is Some <==> n - 1 < g.heights()[col]);
    }
}

/// A column's height is the number of discs in it.
pub proof fn law_height_counts_discs(g: Connect4, col: int)
    requires
        g.wf(),
        0 <= col < COLS,
    ensures
        filled_in(g.grid(), col, ROWS as int) == g.heights()[col],
{
    g.lemma_heights_cells();
    lemma_filled_prefix(g, col, ROWS as int);
}

proof fn lemma_open_increasing(h: Seq<usize>, n: int)
    requires
        0 <= n <= h.len(),
        n <= COLS,
    ensures
        forall|i: int, j: int|
            0 <= i < j < open_columns_upto(h, n).len() ==> open_columns_upto(h, n)[i]
                < open_columns_upto(h, n)[j],
    decreases n,
{
    if n > 0 {
        lemma_open_increasing(h, n - 1);
        lemma_open_columns(h, n - 1);
        let prev = open_columns_upto(h, n - 1);
        let s = open_columns_upto(h, n);
        let tail = if h[n - 1] < ROWS {
            seq![(n - 1) as usize]
        } else {
            Seq::<usize>::empty()
        };
        assert(s == prev + tail);
        assert forall|i: int, j: int| 0 <= i < j < s.len() implies s[i] < s[j] by {
            assert(s[i] == prev[i]);
            if j < prev.len() {
                assert(s[j] == prev[j]);
            }
        }
    }
}

/// [`Connect4::open_columns`] lists, in increasing order, exactly the
/// columns whose top cell is empty, whatever the status.
pub proof fn law_open_columns_are_not_full(g: Connect4)
    requires
        g.wf(),
    ensures
        forall|c: usize| #[trigger]
            open_columns_upto(g.heights(), COLS as int).contains(c) <==> (c < COLS && g.grid()[cell_index(
                ROWS - 1,
                c as int,
            )] is None),
        forall|i: int, j: int|
            0 <= i < j < open_columns_upto(g.heights(), COLS as int).len() ==> open_columns_upto(
                g.heights(),
                COLS as int,
            )[i] < open_columns_upto(g.heights(), COLS as int)[j],
{
    g.lemma_wf_len();
    g.lemma_heights_cells();
    lemma_open_columns(g.heights(), COLS as int);
    lemma_open_increasing(g.heights(), COLS as int);
    assert forall|c: usize| #[trigger]
        open_columns_upto(g.heights(), COLS as int).contains(c) <==> (c < COLS && g.grid()[cell_index(
            ROWS - 1,
            c as int,
        )] is None) by {
        if c < COLS {
            assert(g.grid()[cell_index(ROWS - 1, c as int)] is Some <==> ROWS - 1 < g.heights()[c as int]);
        }
    }
}

/// After a disc drops into `col`, it sits on top of the discs already in
/// that column, the turn passes and every other cell is unchanged.
pub proof fn law_drop_lands_on_top(g: Connect4, col: usize, g2: Connect4)
    requires
        g.wf(),
        col < COLS,
        filled_in(g.grid(), col as int, ROWS as int) < ROWS,
        g.dropped(col, g2),
    ensures
        g2.last_drop_spec() == Some((filled_in(g.grid(), col as int, ROWS as int) as usize, col)),
        g2.grid()[cell_index(filled_in(g.grid(), col as int, ROWS as int), col as int)] == Some(
            g.turn_spec(),
        ),
        g2.turn_spec() == opposite_of(g.turn_spec()),
        forall|r: int, c: int|
            0 <= r < ROWS && 0 <= c < COLS && (r, c) != (filled_in(g.grid(), col as int, ROWS as int),
                col as int) ==> #[trigger] g2.grid()[cell_index(r, c)] == g.grid()[cell_index(r, c)],
{
    law_height_counts_discs(g, col as int);
    g.lemma_wf_len();
    assert(cell_index(g.heights()[col as int] as int, col as int) < 42);
    assert forall|r: int, c: int|
        0 <= r < ROWS && 0 <= c < COLS && (r, c) != (filled_in(g.grid(), col as int, ROWS as int),
            col as int) implies #[trigger] g2.grid()[cell_index(r, c)] == g.grid()[cell_index(r, c)] by {
        let h = g.heights()[col as int] as int;
        assert(cell_index(r, c) != cell_index(h, col as int)) by (nonlinear_arith)
            requires
                0 <= r < 6,
                0 <= c < 7,
                0 <= h < 6,
                0 <= col < 7,
                r != h || c != col,
        ;
    }
}

/// While the game is on, [`Connect4::open_columns`] lists exactly the
/// columns in which [`Connect4::drop`] succeeds.
pub proof fn law_open_columns_accept_drop(g: Connect4, col: usize)
    requires
        g.wf(),
        g.status_spec() is Ongoing,
    ensures
        open_columns_upto(g.heights(), COLS as int).contains(col) <==> (col < COLS
            && g.heights()[col as int] < ROWS),
{
    g.lemma_wf_len();
    lemma_open_columns(g.heights(), COLS as int);
}

proof fn lemma_height_sum_bound(h: Seq<usize>, n: int)
    requires
        0 <= n <= h.len(),
        forall|c: int| 0 <= c < n ==> #[trigger] h[c] <= ROWS,
    ensures
        0 <= height_sum(h, n) <= ROWS * n,
    decreases n,
{
    if n > 0 {
        lemma_height_sum_bound(h, n - 1);
    }
}

proof fn lemma_height_sum_update(h: Seq<usize>, n: int, c: int)
    requires
        0 <= n <= h.len(),
        0 <= c < h.len(),
        h[c] < usize::MAX,
    ensures
        height_sum(h.update(c, (h[c] + 1) as usize), n) == height_sum(h, n) + if c < n {
            1int
        } else {
            0
        },
    decreases n,
{
    if n > 0 {
        lemma_height_sum_update(h, n - 1, c);
    }
}

proof fn lemma_height_sum_full(h: Seq<usize>, n: int)
    requires
        0 <= n <= h.len(),
        forall|c: int| 0 <= c < n ==> #[trigger] h[c] <= ROWS,
        height_sum(h, n) == ROWS * n,
    ensures
        forall|c: int| 0 <= c < n ==> #[trigger] h[c] == ROWS,
    decreases n,
{
    if n > 0 {
        lemma_height_sum_bound(h, n - 1);
        lemma_height_sum_full(h, n - 1);
    }
}

proof fn lemma_height_sum_not_full(h: Seq<usize>, n: int)
    requires
        0 <= n <= h.len(),
        forall|c: int| 0 <= c < n ==> #[trigger] h[c] <= ROWS,
        height_sum(h, n) != ROWS * n,
    ensures
        exists|c: int| 0 <= c < n && #[trigger] h[c] < ROWS,
    decreases n,
{
    if n > 0 {
        if h[n - 1] == ROWS {
            lemma_height_sum_not_full(h, n - 1);
        }
    }
}

/// `(r, c)` is on the board and holds a `side` disc.
fn holds(cells: &[Option<Side>; 42], r: isize, c: isize, side: Side) -> (b: bool)
    ensures
        b == (on_board(r as int, c as int) && cells@[cell_index(r as int, c as int)] == Some(side)),
{
    if r >= 0 && r < ROWS as isize && c >= 0 && c < COLS as isize {
        match cells[(c as usize) * ROWS + (r as usize)] {
            Some(s) => s == side,
            None => false,
        }
    } else {
        false
    }
}

/// Counts consecutive `side` discs from `(r0, c0)` along `(dr, dc)`, looking
/// at most seven cells.
fn run_exec(
    cells: &[Option<Side>; 42],
    r0: isize,
    c0: isize,
    dr: isize,
    dc: isize,
    side: Side,
) -> (n: usize)
    requires
        -8 <= r0 <= 14,
        -8 <= c0 <= 14,
        -1 <= dr <= 1,
        -1 <= dc <= 1,
    ensures
        n == run(cells@, r0 as int, c0 as int, dr as int, dc as int, side, 7),
        n <= 7,
{
    let mut r = r0;
    let mut c = c0;
    let mut steps: usize = 0;
    while steps < 7 && holds(cells, r, c, side)
        invariant
            steps <= 7,
            dr == 1 ==> r == r0 + steps,
            dr == -1 ==> r == r0 - steps,
            dr == 0 ==> r == r0,
            dc == 1 ==> c == c0 + steps,
            dc == -1 ==> c == c0 - steps,
            dc == 0 ==> c == c0,
            -1 <= dr <= 1,
            -1 <= dc <= 1,
            -8 <= r0 <= 14,
            -8 <= c0 <= 14,
            run(cells@, r0 as int, c0 as int, dr as int, dc as int, side, 7) == steps + run(
                cells@,
                r as int,
                c as int,
                dr as int,
                dc as int,
                side,
                (7 - steps) as nat,
            ),
        decreases 7 - steps,
    {
        r += dr;
        c += dc;
        steps += 1;
    }
    steps
}

/// True when the disc just landed at `(row, col)` completes four in a row.
fn lands_four(cells: &[Option<Side>; 42], row: usize, col: usize, side: Side) -> (b: bool)
    requires
        row < ROWS,
        col < COLS,
    ensures
        b == lands_four_spec(cells@, row as int, col as int, side),
{
    let r = row as isize;
    let c = col as isize;
    let v = 1 + run_exec(cells, r - 1, c, -1, 0, side) + run_exec(cells, r + 1, c, 1, 0, side);
    let h = 1 + run_exec(cells, r, c - 1, 0, -1, side) + run_exec(cells, r, c + 1, 0, 1, side);
    let d1 = 1 + run_exec(cells, r - 1, c - 1, -1, -1, side) + run_exec(
        cells,
        r + 1,
        c + 1,
        1,
        1,
        side,
    );
    let d2 = 1 + run_exec(cells, r - 1, c + 1, -1, 1, side) + run_exec(
        cells,
        r + 1,
        c - 1,
        1,
        -1,
        side,
    );
    v >= 4 || h >= 4 || d1 >= 4 || d2 >= 4
}

} // verus!

//! Pure English draughts (checkers) rules — no TUI dependencies here.

use vstd::prelude::*;

verus! {

/// Squares per board row/column.
pub const SIZE: usize = 8;

/// Playing sides. White sits at the bottom and marches up the board.
#[derive(Clone, Copy, PartialEq, Eq, Debug, Structural)]
pub enum Side {
    White,
    Black,
}

pub open spec fn opposite_of(s: Side) -> Side {
    match s {
        Side::White => Side::Black,
        Side::Black => Side::White,
    }
}

impl Side {
    /// The other side.
    pub fn opposite(self) -> (r: Self)
        ensures
            r == opposite_of(self),
    {
        match self {
            Side::White => Side::Black,
            Side::Black => Side::White,
        }
    }
}

/// A piece: a man until it reaches its last row, then a king.
#[derive(Clone, Copy, PartialEq, Eq, Debug, Structural)]
pub struct PC {
    pub side: Side,
    pub king: bool,
}

/// Game outcome.
#[derive(Clone, Copy, PartialEq, Eq, Debug, Structural)]
pub enum Status {
    Ongoing,
    Won(Side),
}

/// Diagonal directions a piece may travel, in scan order; men only march
/// forward (White up the board, Black down).
pub open spec fn dirs_spec(king: bool, side: Side) -> Seq<(int, int)> {
    if king {
        seq![(-1, -1), (-1, 1), (1, -1), (1, 1)]
    } else {
        match side {
            Side::White => seq![(-1, -1), (-1, 1)],
            Side::Black => seq![(1, -1), (1, 1)],
        }
    }
}

pub open spec fn inside(v: int) -> bool {
    0 <= v < 8
}

/// Empty diagonal neighbours of `(r, c)` along the directions `ds`.
pub open spec fn step_gen(board: Seq<Option<PC>>, r: int, c: int, ds: Seq<(int, int)>) -> Seq<usize>
    decreases ds.len(),
{
    if ds.len() == 0 {
        Seq::empty()
    } else {
        let d = ds.last();
        let (nr, nc) = (r + d.0, c + d.1);
        step_gen(board, r, c, ds.drop_last()) + if inside(nr) && inside(nc) && board[nr * 8
            + nc] is None {
            seq![(nr * 8 + nc) as usize]
        } else {
            Seq::empty()
        }
    }
}

/// Landing squares of jumps from `(r, c)` by a piece of `side` along `ds`:
/// the adjacent square holds an enemy and the square beyond is empty.
pub open spec fn capture_gen(
    board: Seq<Option<PC>>,
    side: Side,
    r: int,
    c: int,
    ds: Seq<(int, int)>,
) -> Seq<usize>
    decreases ds.len(),
{
    if ds.len() == 0 {
        Seq::empty()
    } else {
        let d = ds.last();
        let (mr, mc) = (r + d.0, c + d.1);
        let (lr, lc) = (r + 2 * d.0, c + 2 * d.1);
        capture_gen(board, side, r, c, ds.drop_last()) + if inside(mr) && inside(mc) && inside(lr)
            && inside(lc) && (board[mr * 8 + mc] matches Some(v) && v.side == opposite_of(side))
            && board[lr * 8 + lc] is None {
            seq![(lr * 8 + lc) as usize]
        } else {
            Seq::empty()
        }
    }
}

/// Plain steps available to the piece on `sq`.
pub open spec fn step_targets_spec(board: Seq<Option<PC>>, sq: int) -> Seq<usize> {
    match board[sq] {
        None => Seq::empty(),
        Some(pc) => step_gen(board, sq / 8, sq % 8, dirs_spec(pc.king, pc.side)),
    }
}

/// Jump landings available to the piece on `sq`.
pub open spec fn capture_targets_spec(board: Seq<Option<PC>>, sq: int) -> Seq<usize> {
    match board[sq] {
        None => Seq::empty(),
        Some(pc) => capture_gen(board, pc.side, sq / 8, sq % 8, dirs_spec(pc.king, pc.side)),
    }
}

/// Some piece of `side` can jump.
pub open spec fn any_capture_spec(board: Seq<Option<PC>>, side: Side) -> bool {
    exists|sq: int|
        0 <= sq < 64 && (board[sq] matches Some(pc) && pc.side == side) && #[trigger] capture_targets_spec(
            board,
            sq,
        ).len() > 0
}

/// `side` has a legal move: a jump, or a plain step of one of its pieces.
pub open spec fn has_moves_spec(board: Seq<Option<PC>>, side: Side) -> bool {
    any_capture_spec(board, side) || exists|sq: int|
        0 <= sq < 64 && (board[sq] matches Some(pc) && pc.side == side) && #[trigger] step_targets_spec(
            board,
            sq,
        ).len() > 0
}

/// Status after handing the move to `next`: a side without moves loses.
pub open spec fn status_after_pass(status: Status, board: Seq<Option<PC>>, next: Side) -> Status {
    if status is Ongoing && !has_moves_spec(board, next) {
        Status::Won(opposite_of(next))
    } else {
        status
    }
}

/// Pieces of `side` among the first `n` squares.
pub open spec fn count_side(board: Seq<Option<PC>>, side: Side, n: int) -> int
    decreases n,
{
    if n <= 0 {
        0
    } else {
        count_side(board, side, n - 1) + if board[n - 1] matches Some(pc) && pc.side == side {
            1int
        } else {
            0
        }
    }
}

/// An empty board with the first `k` entries of `pieces` placed in order.
pub open spec fn place_all(pieces: Seq<(usize, Side, bool)>, k: int) -> Seq<Option<PC>>
    decreases k,
{
    if k <= 0 {
        Seq::new(64, |i: int| None)
    } else {
        let p = pieces[k - 1];
        place_all(pieces, k - 1).update(p.0 as int, Some(PC { side: p.1, king: p.2 }))
    }
}

/// Standard opening layout: Black men on the dark squares of rows 0-2,
/// White men on those of rows 5-7.
pub open spec fn start_square(sq: int) -> Option<PC> {
    let (r, c) = (sq / 8, sq % 8);
    if (r + c) % 2 != 1 {
        None
    } else if r <= 2 {
        Some(PC { side: Side::Black, king: false })
    } else if r >= 5 {
        Some(PC { side: Side::White, king: false })
    } else {
        None
    }
}

/// Full rules state. Squares are indexed `r * 8 + c` with row 0 at the top;
/// only dark squares (`(r + c) % 2 == 1`) ever hold pieces.
#[derive(Clone, Copy)]
pub struct Checkers {
    board: [Option<PC>; 64],
    turn: Side,
    /// While a multi-jump is in progress, the index of the jumping piece.
    chain_from: Option<usize>,
    last_move: Option<(usize, usize)>,
    status: Status,
}

/// Number of travel directions of a piece.
fn dir_count(king: bool) -> (n: usize)
    ensures
        n == dirs_spec(king, Side::White).len(),
        n == dirs_spec(king, Side::Black).len(),
{
    if king {
        4
    } else {
        2
    }
}

/// Direction `k` of a piece, in scan order.
fn dir_at(king: bool, side: Side, k: usize) -> (d: (isize, isize))
    requires
        k < dirs_spec(king, side).len(),
    ensures
        (d.0 as int, d.1 as int) == dirs_spec(king, side)[k as int],
        -1 <= d.0 <= 1,
        -1 <= d.1 <= 1,
{
    if king {
        if k == 0 {
            (-1, -1)
        } else if k == 1 {
            (-1, 1)
        } else if k == 2 {
            (1, -1)
        } else {
            (1, 1)
        }
    } else {
        match side {
            Side::White => if k == 0 {
                (-1, -1)
            } else {
                (-1, 1)
            },
            Side::Black => if k == 0 {
                (1, -1)
            } else {
                (1, 1)
            },
        }
    }
}

fn in_range(v: isize) -> (b: bool)
    ensures
        b == inside(v as int),
{
    0 <= v && v < 8
}

impl Checkers {
    pub closed spec fn board_spec(&self) -> Seq<Option<PC>> {
        self.board@
    }

    pub closed spec fn turn_spec(&self) -> Side {
        self.turn
    }

    pub closed spec fn chain_spec(&self) -> Option<usize> {
        self.chain_from
    }

    pub closed spec fn last_move_spec(&self) -> Option<(usize, usize)> {
        self.last_move
    }

    pub closed spec fn status_spec(&self) -> Status {
        self.status
    }

    /// The chained piece, if any, stands on the board.
    pub open spec fn wf(&self) -> bool {
        &&& self.board_spec().len() == 64
        &&& self.chain_spec() matches Some(c) ==> c < 64
    }

    /// The state after the piece on `from` moves to `to`: a jump removes
    /// the piece jumped over, a man reaching the far row is crowned, and the
    /// same piece keeps jumping (same side to move) while it can, unless it
    /// was just crowned; otherwise the turn passes.
    pub open spec fn moved(&self, from: usize, to: usize, g: Checkers) -> bool {
        let b0 = self.board_spec();
        let pc = b0[from as int]->0;
        let (fr, fc, tr, tc) = (from / 8, from % 8, to / 8, to % 8);
        let jump = (fr - tr == 2 || tr - fr == 2) && (fc - tc == 2 || tc - fc == 2);
        let b1 = if jump {
            b0.update(((fr + tr) / 2) * 8 + (fc + tc) / 2, None)
        } else {
            b0
        };
        let crown_row = match pc.side {
            Side::White => 0int,
            Side::Black => 7,
        };
        let crowned = !pc.king && tr == crown_row;
        let b2 = b1.update(from as int, None).update(
            to as int,
            Some(PC { side: pc.side, king: pc.king || crowned }),
        );
        let mover = self.turn_spec();
        &&& g.board_spec() == b2
        &&& count_side(b2, pc.side, 64) == count_side(b0, pc.side, 64)
        &&& count_side(b2, opposite_of(pc.side), 64) == count_side(
            b0,
            opposite_of(pc.side),
            64,
        ) - if jump {
            1int
        } else {
            0
        }
        &&& g.last_move_spec() == Some((from, to))
        &&& if !crowned && jump && capture_targets_spec(b2, to as int).len() > 0 {
            &&& g.chain_spec() == Some(to)
            &&& g.turn_spec() == mover
            &&& g.status_spec() == self.status_spec()
        } else {
            &&& g.chain_spec() is None
            &&& g.turn_spec() == opposite_of(mover)
            &&& g.status_spec() == status_after_pass(
                self.status_spec(),
                b2,
                opposite_of(mover),
            )
        }
    }

    /// Crowning: the piece moved from `from` lands on `to` keeping its side,
    /// and it is a king afterwards exactly when it was one already or it is
    /// a man reaching the row farthest from its side's start (row 0 for
    /// White, row 7 for Black).
    pub proof fn law_crowning(&self, from: usize, to: usize, g: Checkers)
        requires
            self.wf(),
            from < 64,
            to < 64,
            self.moved(from, to, g),
        ensures
            self.board_spec()[from as int] matches Some(p) ==> (g.board_spec()[to as int] matches Some(q) && q.side
                == p.side && (q.king <==> (p.king || (p.side == Side::White && to / 8 == 0) || (p.side
                == Side::Black && to / 8 == 7)))),
    {
    }

    /// A move has exactly one outcome: two positions that both follow this
    /// one by moving `from` to `to` are the same.
    pub proof fn lemma_moved_unique(&self, from: usize, to: usize, a: Checkers, b: Checkers)
        requires
            self.moved(from, to, a),
            self.moved(from, to, b),
        ensures
            a == b,
    {
        assert(a.board =~= b.board);
    }

    /// Squares `from` may legally move to right now (see
    /// [`Checkers::legal_targets`]).
    pub open spec fn legal_targets_spec(&self, from: int) -> Seq<usize> {
        let board = self.board_spec();
        if !(self.status_spec() is Ongoing) {
            Seq::empty()
        } else if self.chain_spec() is Some {
            if from == self.chain_spec()->0 {
                capture_targets_spec(board, from)
            } else {
                Seq::empty()
            }
        } else if !(board[from] matches Some(pc) && pc.side == self.turn_spec()) {
            Seq::empty()
        } else if capture_targets_spec(board, from).len() > 0 {
            capture_targets_spec(board, from)
        } else if any_capture_spec(board, self.turn_spec()) {
            Seq::empty()
        } else {
            step_targets_spec(board, from)
        }
    }

    /// Standard starting position: Black men on top, White men below,
    /// White to move.
    pub fn new() -> (g: Self)
        ensures
            g.wf(),
            forall|sq: int| 0 <= sq < 64 ==> #[trigger] g.board_spec()[sq] == start_square(sq),
            g.turn_spec() == Side::White,
            g.chain_spec() is None,
            g.last_move_spec() is None,
            g.status_spec() == Status::Ongoing,
    {
        let mut board: [Option<PC>; 64] = [None; 64];
        let mut r: usize = 0;
        while r < SIZE
            invariant
                0 <= r <= SIZE,
                forall|sq: int|
                    0 <= sq < 64 ==> #[trigger] board@[sq] == if sq < r * 8 {
                        start_square(sq)
                    } else {
                        None
                    },
            decreases SIZE - r,
        {
            let mut c: usize = 0;
            while c < SIZE
                invariant
                    0 <= r < SIZE,
                    0 <= c <= SIZE,
                    forall|sq: int|
                        0 <= sq < 64 ==> #[trigger] board@[sq] == if sq < r * 8 + c {
                            start_square(sq)
                        } else {
                            None
                        },
                decreases SIZE - c,
            {
                if (r + c) % 2 == 1 {
                    if r <= 2 {
                        board[r * SIZE + c] = Some(PC { side: Side::Black, king: false });
                    } else if r >= 5 {
                        board[r * SIZE + c] = Some(PC { side: Side::White, king: false });
                    }
                }
                proof {
                    let sq = r * 8 + c;
                    assert(sq / 8 == r && sq % 8 == c);
                }
                c += 1;
            }
            r += 1;
        }
        Checkers {
            board,
            turn: Side::White,
            chain_from: None,
            last_move: None,
            status: Status::Ongoing,
        }
    }

    /// Piece standing on `square`, if any.
    pub fn piece_at(&self, square: usize) -> (r: Option<PC>)
        requires
            square < 64,
        ensures
            r == self.board_spec()[square as int],
    {
        self.board[square]
    }

    /// Side whose turn it is.
    pub fn turn(&self) -> (r: Side)
        ensures
            r == self.turn_spec(),
    {
        self.turn
    }

    /// Current outcome.
    pub fn status(&self) -> (r: Status)
        ensures
            r == self.status_spec(),
    {
        self.status
    }

    /// Origin square of an in-progress multi-jump, if any.
    pub fn chain_from(&self) -> (r: Option<usize>)
        ensures
            r == self.chain_spec(),
    {
        self.chain_from
    }

    /// Last executed move as `(from, to)`.
    pub fn last_move(&self) -> (r: Option<(usize, usize)>)
        ensures
            r == self.last_move_spec(),
    {
        self.last_move
    }

    /// Sparse position builder: listed pieces (a later entry for the same
    /// square wins), empty elsewhere, `turn` to move, no chain, no history,
    /// game running.
    pub fn test_position(turn: Side, pieces: &[(usize, Side, bool)]) -> (g: Self)
        requires
            forall|i: int| 0 <= i < pieces@.len() ==> #[trigger] pieces@[i].0 < 64,
        ensures
            g.wf(),
            g.turn_spec() == turn,
            g.chain_spec() is None,
            g.last_move_spec() is None,
            g.status_spec() == Status::Ongoing,
            g.board_spec() == place_all(pieces@, pieces@.len() as int),
    {
        let mut board: [Option<PC>; 64] = [None; 64];
        let mut k: usize = 0;
        assert(board@ =~= place_all(pieces@, 0));
        while k < pieces.len()
            invariant
                0 <= k <= pieces@.len(),
                forall|i: int| 0 <= i < pieces@.len() ==> #[trigger] pieces@[i].0 < 64,
                board@ == place_all(pieces@, k as int),
            decreases pieces@.len() - k,
        {
            let (square, side, is_king) = pieces[k];
            board[square] = Some(PC { side, king: is_king });
            k += 1;
        }
        Checkers {
            board,
            turn,
            chain_from: None,
            last_move: None,
            status: Status::Ongoing,
        }
    }

    /// Remaining men+kings as `(white, black)`.
    pub fn counts(&self) -> (r: (usize, usize))
        requires
            self.wf(),
        ensures
            r.0 == count_side(self.board_spec(), Side::White, 64),
            r.1 == count_side(self.board_spec(), Side::Black, 64),
    {
        let mut white: usize = 0;
        let mut black: usize = 0;
        let mut sq: usize = 0;
        while sq < 64
            invariant
                0 <= sq <= 64,
                self.board@.len() == 64,
                white == count_side(self.board@, Side::White, sq as int),
                black == count_side(self.board@, Side::Black, sq as int),
                white + black <= sq,
            decreases 64 - sq,
        {
            match self.board[sq] {
                Some(pc) => match pc.side {
                    Side::White => white += 1,
                    Side::Black => black += 1,
                },
                None => {},
            }
            sq += 1;
        }
        (white, black)
    }

    /// Squares `from` may legally move to right now. Honours the mandatory
    /// capture rule (checked across all of the side's pieces) and, during a
    /// multi-jump, answers only for the chained piece.
    pub fn legal_targets(&self, from: usize) -> (r: Vec<usize>)
        requires
            self.wf(),
            self.status_spec() is Ongoing && self.chain_spec() is None ==> from < 64,
        ensures
            r@ == self.legal_targets_spec(from as int),
    {
        match self.status {
            Status::Ongoing => {},
            _ => return Vec::new(),
        }
        match self.chain_from {
            Some(chain) => {
                return if from == chain {
                    capture_targets(&self.board, chain)
                } else {
                    Vec::new()
                };
            },
            None => {},
        }
        let pc = match self.board[from] {
            Some(pc) => pc,
            None => return Vec::new(),
        };
        if pc.side != self.turn {
            return Vec::new();
        }
        let captures = capture_targets(&self.board, from);
        if captures.len() > 0 {
            return captures;
        }
        if any_capture(&self.board, self.turn) {
            return Vec::new();
        }
        step_targets(&self.board, from)
    }

    /// Execute one move step (a plain step or a single jump). Returns false
    /// for anything [`Checkers::legal_targets`] would not offer.
    #[verifier::rlimit(80)]
    pub fn play(&mut self, from: usize, to: usize) -> (ok: bool)
        requires
            old(self).wf(),
            old(self).status_spec() is Ongoing && old(self).chain_spec() is None ==> from < 64,
        ensures
            final(self).wf(),
            ok == old(self).legal_targets_spec(from as int).contains(to),
            !ok ==> *final(self) == *old(self),
            ok ==> old(self).moved(from, to, *final(self)),
    {
        let targets = self.legal_targets(from);
        if !contains(&targets, to) {
            return false;
        }
        proof {
            lemma_legal_targets_shape(*self, from as int);
            assert(targets@.contains(to));
            lemma_move_counts(*self, from, to);
        }
        let pc = match self.board[from] {
            Some(pc) => pc,
            None => return false,
        };
        let fr = from / SIZE;
        let fc = from % SIZE;
        let tr = to / SIZE;
        let tc = to % SIZE;
        let is_jump = (fr >= tr && fr - tr == 2 || tr >= fr && tr - fr == 2) && (fc >= tc && fc
            - tc == 2 || tc >= fc && tc - fc == 2);
        let crown_row: usize = match pc.side {
            Side::White => 0,
            Side::Black => SIZE - 1,
        };
        // Crowning ends the turn at once, even if further jumps would exist.
        let crowned = !pc.king && tr == crown_row;
        if is_jump {
            let mid = ((fr + tr) / 2) * SIZE + (fc + tc) / 2;
            self.board[mid] = None;
        }
        self.board[from] = None;
        self.board[to] = Some(PC { side: pc.side, king: pc.king || crowned });
        self.last_move = Some((from, to));
        if !crowned && is_jump && capture_targets(&self.board, to).len() > 0 {
            // The same piece must keep jumping; the turn does not switch.
            self.chain_from = Some(to);
        } else {
            self.chain_from = None;
            self.advance_turn();
        }
        true
    }

    fn advance_turn(&mut self)
        requires
            old(self).board@.len() == 64,
        ensures
            final(self).board@ == old(self).board@,
            final(self).chain_from == old(self).chain_from,
            final(self).last_move == old(self).last_move,
            final(self).turn == opposite_of(old(self).turn),
            final(self).status == status_after_pass(
                old(self).status,
                old(self).board@,
                opposite_of(old(self).turn),
            ),
    {
        self.turn = self.turn.opposite();
        let ongoing = match self.status {
            Status::Ongoing => true,
            _ => false,
        };
        if ongoing && !side_has_moves(&self.board, self.turn) {
            self.status = Status::Won(self.turn.opposite());
        }
    }
}

/// One if `o` is a piece of `side`.
pub open spec fn of_side(o: Option<PC>, side: Side) -> int {
    if o matches Some(pc) && pc.side == side {
        1
    } else {
        0
    }
}

proof fn lemma_count_update(b: Seq<Option<PC>>, side: Side, n: int, i: int, v: Option<PC>)
    requires
        0 <= n <= b.len(),
        0 <= i < b.len(),
    ensures
        count_side(b.update(i, v), side, n) == count_side(b, side, n) + if i < n {
            of_side(v, side) - of_side(b[i], side)
        } else {
            0
        },
    decreases n,
{
    if n > 0 {
        lemma_count_update(b, side, n - 1, i, v);
    }
}

proof fn lemma_square(r: int, c: int)
    requires
        0 <= r < 8,
        0 <= c < 8,
    ensures
        (r * 8 + c) / 8 == r,
        (r * 8 + c) % 8 == c,
{
    vstd::arithmetic::div_mod::lemma_fundamental_div_mod_converse(r * 8 + c, 8, r, c);
}

/// Each step target is an empty square one diagonal away from `(r, c)`.
proof fn lemma_step_gen_shape(board: Seq<Option<PC>>, r: int, c: int, ds: Seq<(int, int)>)
    requires
        board.len() == 64,
        forall|k: int|
            0 <= k < ds.len() ==> (#[trigger] ds[k].0 == 1 || ds[k].0 == -1) && (ds[k].1 == 1
                || ds[k].1 == -1),
    ensures
        forall|i: int|
            0 <= i < step_gen(board, r, c, ds).len() ==> {
                let t = #[trigger] step_gen(board, r, c, ds)[i] as int;
                &&& 0 <= t < 64
                &&& board[t] is None
                &&& (t / 8 - r == 1 || r - t / 8 == 1)
            },
    decreases ds.len(),
{
    if ds.len() > 0 {
        lemma_step_gen_shape(board, r, c, ds.drop_last());
        let prev = step_gen(board, r, c, ds.drop_last());
        let cur = step_gen(board, r, c, ds);
        let d = ds.last();
        assert(d == ds[ds.len() - 1]);
        let (nr, nc) = (r + d.0, c + d.1);
        if inside(nr) && inside(nc) {
            lemma_square(nr, nc);
        }
        assert forall|i: int| 0 <= i < cur.len() implies {
            let t = #[trigger] cur[i] as int;
            &&& 0 <= t < 64
            &&& board[t] is None
            &&& (t / 8 - r == 1 || r - t / 8 == 1)
        } by {
            if i < prev.len() {
                assert(cur[i] == prev[i]);
            }
        }
    }
}

/// Each jump landing is an empty square two diagonals away from `(r, c)`,
/// with a piece of the other side between.
proof fn lemma_capture_gen_shape(
    board: Seq<Option<PC>>,
    side: Side,
    r: int,
    c: int,
    ds: Seq<(int, int)>,
)
    requires
        board.len() == 64,
        forall|k: int|
            0 <= k < ds.len() ==> (#[trigger] ds[k].0 == 1 || ds[k].0 == -1) && (ds[k].1 == 1
                || ds[k].1 == -1),
    ensures
        forall|i: int|
            0 <= i < capture_gen(board, side, r, c, ds).len() ==> {
                let t = #[trigger] capture_gen(board, side, r, c, ds)[i] as int;
                let (tr, tc) = (t / 8, t % 8);
                let m = ((r + tr) / 2) * 8 + (c + tc) / 2;
                &&& 0 <= t < 64
                &&& board[t] is None
                &&& (tr - r == 2 || r - tr == 2)
                &&& (tc - c == 2 || c - tc == 2)
                &&& 0 <= m < 64
                &&& of_side(board[m], opposite_of(side)) == 1
            },
    decreases ds.len(),
{
    if ds.len() > 0 {
        assert forall|k: int| 0 <= k < ds.drop_last().len() implies (#[trigger] ds.drop_last()[k].0
            == 1 || ds.drop_last()[k].0 == -1) && (ds.drop_last()[k].1 == 1 || ds.drop_last()[k].1
            == -1) by {
            assert(ds.drop_last()[k] == ds[k]);
        }
        lemma_capture_gen_shape(board, side, r, c, ds.drop_last());
        let prev = capture_gen(board, side, r, c, ds.drop_last());
        let cur = capture_gen(board, side, r, c, ds);
        let d = ds.last();
        assert(d == ds[ds.len() - 1]);
        let (lr, lc) = (r + 2 * d.0, c + 2 * d.1);
        if inside(lr) && inside(lc) {
            lemma_square(lr, lc);
        }
        assert forall|i: int| 0 <= i < cur.len() implies {
            let t = #[trigger] cur[i] as int;
            let (tr, tc) = (t / 8, t % 8);
            let m = ((r + tr) / 2) * 8 + (c + tc) / 2;
            &&& 0 <= t < 64
            &&& board[t] is None
            &&& (tr - r == 2 || r - tr == 2)
            &&& (tc - c == 2 || c - tc == 2)
            &&& 0 <= m < 64
            &&& of_side(board[m], opposite_of(side)) == 1
        } by {
            if i < prev.len() {
                assert(cur[i] == prev[i]);
            }
        }
    }
}

/// A legal move keeps the moving side's piece count, and a jump takes
/// exactly one piece of the other side.
proof fn lemma_move_counts(g: Checkers, from: usize, to: usize)
    requires
        g.wf(),
        from < 64,
        g.legal_targets_spec(from as int).contains(to),
    ensures
        ({
            let b0 = g.board_spec();
            let pc = b0[from as int]->0;
            let (fr, fc, tr, tc) = (from / 8, from % 8, to / 8, to % 8);
            let jump = (fr - tr == 2 || tr - fr == 2) && (fc - tc == 2 || tc - fc == 2);
            let b1 = if jump {
                b0.update(((fr + tr) / 2) * 8 + (fc + tc) / 2, None)
            } else {
                b0
            };
            let crown_row = match pc.side {
                Side::White => 0int,
                Side::Black => 7,
            };
            let crowned = !pc.king && tr == crown_row;
            let b2 = b1.update(from as int, None).update(
                to as int,
                Some(PC { side: pc.side, king: pc.king || crowned }),
            );
            &&& b0[from as int] is Some
            &&& count_side(b2, pc.side, 64) == count_side(b0, pc.side, 64)
            &&& count_side(b2, opposite_of(pc.side), 64) == count_side(b0, opposite_of(pc.side), 64)
                - if jump {
                1int
            } else {
                0
            }
        }),
{
    let b0 = g.board_spec();
    let targets = g.legal_targets_spec(from as int);
    lemma_legal_targets_shape(g, from as int);
    let pc = b0[from as int]->0;
    let (r, c) = (from / 8, from % 8);
    let ds = dirs_spec(pc.king, pc.side);
    let k = choose|k: int| 0 <= k < targets.len() && targets[k] == to;
    let (fr, fc, tr, tc) = (from / 8, from % 8, to / 8, to % 8);
    let jump = (fr - tr == 2 || tr - fr == 2) && (fc - tc == 2 || tc - fc == 2);
    let other = opposite_of(pc.side);
    let steps = step_targets_spec(b0, from as int);
    let caps = capture_targets_spec(b0, from as int);
    if targets == caps {
        lemma_capture_gen_shape(b0, pc.side, r as int, c as int, ds);
        assert(caps[k] == to);
        let m = ((fr + tr) / 2) * 8 + (fc + tc) / 2;
        assert(jump);
        assert(of_side(b0[m], other) == 1);
        let b1 = b0.update(m, None);
        lemma_count_update(b0, pc.side, 64, m, None);
        lemma_count_update(b0, other, 64, m, None);
        assert(m != from);
        assert(m != to);
        lemma_count_update(b1, pc.side, 64, from as int, None);
        lemma_count_update(b1, other, 64, from as int, None);
        let crown_row = match pc.side {
            Side::White => 0int,
            Side::Black => 7,
        };
        let crowned = !pc.king && tr == crown_row;
        let np = Some(PC { side: pc.side, king: pc.king || crowned });
        lemma_count_update(b1.update(from as int, None), pc.side, 64, to as int, np);
        lemma_count_update(b1.update(from as int, None), other, 64, to as int, np);
    } else {
        assert(targets == steps);
        lemma_step_gen_shape(b0, r as int, c as int, ds);
        assert(steps[k] == to);
        assert(!jump);
        lemma_count_update(b0, pc.side, 64, from as int, None);
        lemma_count_update(b0, other, 64, from as int, None);
        let crown_row = match pc.side {
            Side::White => 0int,
            Side::Black => 7,
        };
        let crowned = !pc.king && tr == crown_row;
        let np = Some(PC { side: pc.side, king: pc.king || crowned });
        lemma_count_update(b0.update(from as int, None), pc.side, 64, to as int, np);
        lemma_count_update(b0.update(from as int, None), other, 64, to as int, np);
    }
}

proof fn lemma_step_gen_bounds(board: Seq<Option<PC>>, r: int, c: int, ds: Seq<(int, int)>)
    ensures
        forall|i: int|
            0 <= i < step_gen(board, r, c, ds).len() ==> #[trigger] step_gen(board, r, c, ds)[i]
                < 64,
    decreases ds.len(),
{
    if ds.len() > 0 {
        lemma_step_gen_bounds(board, r, c, ds.drop_last());
        let prev = step_gen(board, r, c, ds.drop_last());
        let cur = step_gen(board, r, c, ds);
        assert forall|i: int| 0 <= i < cur.len() implies #[trigger] cur[i] < 64 by {
            if i < prev.len() {
                assert(cur[i] == prev[i]);
            }
        }
    }
}

proof fn lemma_capture_gen_bounds(
    board: Seq<Option<PC>>,
    side: Side,
    r: int,
    c: int,
    ds: Seq<(int, int)>,
)
    ensures
        forall|i: int|
            0 <= i < capture_gen(board, side, r, c, ds).len() ==> #[trigger] capture_gen(
                board,
                side,
                r,
                c,
                ds,
            )[i] < 64,
    decreases ds.len(),
{
    if ds.len() > 0 {
        lemma_capture_gen_bounds(board, side, r, c, ds.drop_last());
        let prev = capture_gen(board, side, r, c, ds.drop_last());
        let cur = capture_gen(board, side, r, c, ds);
        assert forall|i: int| 0 <= i < cur.len() implies #[trigger] cur[i] < 64 by {
            if i < prev.len() {
                assert(cur[i] == prev[i]);
            }
        }
    }
}

/// Every legal target is a board square, and a legal move starts on a
/// square holding a piece.
proof fn lemma_legal_targets_shape(g: Checkers, from: int)
    requires
        g.wf(),
        g.status_spec() is Ongoing && g.chain_spec() is None ==> 0 <= from < 64,
    ensures
        g.legal_targets_spec(from).len() > 0 ==> 0 <= from < 64 && g.board_spec()[from] is Some,
        forall|i: int|
            0 <= i < g.legal_targets_spec(from).len() ==> #[trigger] g.legal_targets_spec(from)[i]
                < 64,
{
    if g.legal_targets_spec(from).len() > 0 {
        if g.chain_spec() is Some && g.status_spec() is Ongoing {
            assert(from == g.chain_spec()->0);
        }
        let b = g.board_spec();
        let pc = b[from]->0;
        lemma_step_gen_bounds(b, from / 8, from % 8, dirs_spec(pc.king, pc.side));
        lemma_capture_gen_bounds(b, pc.side, from / 8, from % 8, dirs_spec(pc.king, pc.side));
    }
}

fn contains(v: &Vec<usize>, x: usize) -> (b: bool)
    ensures
        b == v@.contains(x),
{
    let mut i: usize = 0;
    while i < v.len()
        invariant
            0 <= i <= v@.len(),
            forall|j: int| 0 <= j < i ==> v@[j] != x,
        decreases v@.len() - i,
    {
        if v[i] == x {
            return true;
        }
        i += 1;
    }
    false
}

/// Empty diagonal neighbours this piece could step to.
fn step_targets(board: &[Option<PC>; 64], sq: usize) -> (out: Vec<usize>)
    requires
        sq < 64,
    ensures
        out@ == step_targets_spec(board@, sq as int),
{
    let pc = match board[sq] {
        Some(pc) => pc,
        None => return Vec::new(),
    };
    let r = (sq / SIZE) as isize;
    let c = (sq % SIZE) as isize;
    let ghost ds = dirs_spec(pc.king, pc.side);
    let n = dir_count(pc.king);
    let mut out: Vec<usize> = Vec::new();
    let mut k: usize = 0;
    while k < n
        invariant
            0 <= k <= n,
            n == ds.len(),
            ds == dirs_spec(pc.king, pc.side),
            0 <= r < 8,
            0 <= c < 8,
            out@ == step_gen(board@, r as int, c as int, ds.take(k as int)),
        decreases n - k,
    {
        let (dr, dc) = dir_at(pc.king, pc.side, k);
        let nr = r + dr;
        let nc = c + dc;
        if in_range(nr) && in_range(nc) {
            let to = (nr * 8 + nc) as usize;
            if board[to].is_none() {
                out.push(to);
            }
        }
        proof {
            assert(ds.take(k + 1).drop_last() =~= ds.take(k as int));
        }
        k += 1;
    }
    assert(ds.take(n as int) =~= ds);
    out
}

/// Landing squares of legal jumps over adjacent enemies.
fn capture_targets(board: &[Option<PC>; 64], sq: usize) -> (out: Vec<usize>)
    requires
        sq < 64,
    ensures
        out@ == capture_targets_spec(board@, sq as int),
        forall|i: int| 0 <= i < out@.len() ==> #[trigger] out@[i] < 64,
{
    let pc = match board[sq] {
        Some(pc) => pc,
        None => return Vec::new(),
    };
    let r = (sq / SIZE) as isize;
    let c = (sq % SIZE) as isize;
    let ghost ds = dirs_spec(pc.king, pc.side);
    let n = dir_count(pc.king);
    let mut out: Vec<usize> = Vec::new();
    let mut k: usize = 0;
    while k < n
        invariant
            0 <= k <= n,
            n == ds.len(),
            ds == dirs_spec(pc.king, pc.side),
            0 <= r < 8,
            0 <= c < 8,
            out@ == capture_gen(board@, pc.side, r as int, c as int, ds.take(k as int)),
            forall|i: int| 0 <= i < out@.len() ==> #[trigger] out@[i] < 64,
        decreases n - k,
    {
        let (dr, dc) = dir_at(pc.king, pc.side, k);
        let mr = r + dr;
        let mc = c + dc;
        let lr = r + 2 * dr;
        let lc = c + 2 * dc;
        if in_range(mr) && in_range(mc) && in_range(lr) && in_range(lc) {
            let mid = (mr * 8 + mc) as usize;
            let land = (lr * 8 + lc) as usize;
            let enemy = match board[mid] {
                Some(victim) => victim.side == pc.side.opposite(),
                None => false,
            };
            if enemy && board[land].is_none() {
                out.push(land);
            }
        }
        proof {
            assert(ds.take(k + 1).drop_last() =~= ds.take(k as int));
        }
        k += 1;
    }
    assert(ds.take(n as int) =~= ds);
    out
}

fn any_capture(board: &[Option<PC>; 64], side: Side) -> (b: bool)
    ensures
        b == any_capture_spec(board@, side),
{
    let mut sq: usize = 0;
    while sq < 64
        invariant
            0 <= sq <= 64,
            forall|s: int|
                0 <= s < sq ==> !((board@[s] matches Some(pc) && pc.side == side)
                    && #[trigger] capture_targets_spec(board@, s).len() > 0),
        decreases 64 - sq,
    {
        let own = match board[sq] {
            Some(pc) => pc.side == side,
            None => false,
        };
        if own && capture_targets(board, sq).len() > 0 {
            return true;
        }
        sq += 1;
    }
    false
}

/// True when `side` has at least one legal move (captures first, as they
/// are mandatory). Also false when the side has no pieces at all.
fn side_has_moves(board: &[Option<PC>; 64], side: Side) -> (b: bool)
    ensures
        b == has_moves_spec(board@, side),
{
    if any_capture(board, side) {
        return true;
    }
    let mut sq: usize = 0;
    while sq < 64
        invariant
            0 <= sq <= 64,
            !any_capture_spec(board@, side),
            forall|s: int|
                0 <= s < sq ==> !((board@[s] matches Some(pc) && pc.side == side)
                    && #[trigger] step_targets_spec(board@, s).len() > 0),
        decreases 64 - sq,
    {
        let own = match board[sq] {
            Some(pc) => pc.side == side,
            None => false,
        };
        if own && step_targets(board, sq).len() > 0 {
            return true;
        }
        sq += 1;
    }
    false
}

} // verus!

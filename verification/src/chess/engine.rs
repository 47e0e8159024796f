//! Pure chess rules: movement, pins, castling, en passant, promotion, mate.
//!
//! Squares are indexed `r * 8 + c` with `(0, 0)` the top-left corner (a8,
//! black's back rank). White pawns advance toward decreasing `r`.

use vstd::prelude::*;

verus! {

/// Piece color. White starts on rows 7-6 and pawns advance toward row 0.
#[derive(Clone, Copy, PartialEq, Eq, Debug, Structural)]
pub enum Side {
    White,
    Black,
}

pub open spec fn opposite_of(s: Side) -> Side {
    match s {
        Side::White => Side::Black,
        Side::Black => Side::White,
    }
}

/// Row delta a pawn of `s` advances by.
pub open spec fn pawn_dir(s: Side) -> int {
    match s {
        Side::White => -1,
        Side::Black => 1,
    }
}

/// Home row of `s`'s king and rooks.
pub open spec fn back_rank(s: Side) -> int {
    match s {
        Side::White => 7,
        Side::Black => 0,
    }
}

/// Row a pawn of `s` starts on, eligible for a double push.
pub open spec fn pawn_start(s: Side) -> int {
    match s {
        Side::White => 6,
        Side::Black => 1,
    }
}

/// Row on which a pawn of `s` promotes.
pub open spec fn promo_row(s: Side) -> int {
    match s {
        Side::White => 0,
        Side::Black => 7,
    }
}

impl Side {
    pub fn opposite(self) -> (r: Side)
        ensures
            r == opposite_of(self),
    {
        match self {
            Side::White => Side::Black,
            Side::Black => Side::White,
        }
    }

    /// Lowercase name for UI text ("white" / "black").
    pub fn name(self) -> (r: &'static str)
        ensures
            r@ == match self {
                Side::White => "white"@,
                Side::Black => "black"@,
            },
    {
        match self {
            Side::White => "white",
            Side::Black => "black",
        }
    }
}

/// What shape a piece is.
#[derive(Clone, Copy, PartialEq, Eq, Debug, Structural)]
pub enum Kind {
    Pawn,
    Knight,
    Bishop,
    Rook,
    Queen,
    King,
}

#[derive(Clone, Copy, PartialEq, Eq, Debug, Structural)]
pub struct Piece {
    pub side: Side,
    pub kind: Kind,
}

#[derive(Clone, Copy, PartialEq, Eq, Debug, Structural)]
pub enum Status {
    Ongoing,
    Won(Side),
    Stalemate,
}

/// Square index from row/column: `r * 8 + c`.
pub fn sq(r: usize, c: usize) -> (i: usize)
    requires
        r * 8 + c <= usize::MAX,
    ensures
        i == r * 8 + c,
{
    r * 8 + c
}

/// Row (rank) of a square index, 0 = top of the board.
pub fn row(i: usize) -> (r: usize)
    ensures
        r == i / 8,
{
    i / 8
}

/// Column (file) of a square index, 0 = left of the board.
pub fn col(i: usize) -> (c: usize)
    ensures
        c == i % 8,
{
    i % 8
}

/// Castling-rights slots: white kingside, white queenside, black kingside,
/// black queenside.
pub const WHITE_KINGSIDE: usize = 0;

pub const WHITE_QUEENSIDE: usize = 1;

pub const BLACK_KINGSIDE: usize = 2;

pub const BLACK_QUEENSIDE: usize = 3;

pub open spec fn kingside_slot(side: Side) -> int {
    match side {
        Side::White => 0,
        Side::Black => 2,
    }
}

pub open spec fn queenside_slot(side: Side) -> int {
    match side {
        Side::White => 1,
        Side::Black => 3,
    }
}

/// The kingside castling-rights slot of `side`.
pub fn side_kingside(side: Side) -> (r: usize)
    ensures
        r == kingside_slot(side),
{
    match side {
        Side::White => WHITE_KINGSIDE,
        Side::Black => BLACK_KINGSIDE,
    }
}

/// The queenside castling-rights slot of `side`.
pub fn side_queenside(side: Side) -> (r: usize)
    ensures
        r == queenside_slot(side),
{
    match side {
        Side::White => WHITE_QUEENSIDE,
        Side::Black => BLACK_QUEENSIDE,
    }
}

/// Rook home square guarded by castling slot `slot`.
pub open spec fn corner_of(slot: int) -> int {
    if slot == 0 {
        63
    } else if slot == 1 {
        56
    } else if slot == 2 {
        7
    } else {
        0
    }
}

// ---------------------------------------------------------------------------
// Geometry
// ---------------------------------------------------------------------------

pub open spec fn abs(v: int) -> int {
    if v < 0 {
        -v
    } else {
        v
    }
}

pub open spec fn sign(v: int) -> int {
    if v > 0 {
        1
    } else if v < 0 {
        -1
    } else {
        0
    }
}

/// `a` moved `k` steps in direction `s` (-1, 0 or 1).
pub open spec fn step(a: int, s: int, k: int) -> int {
    if s > 0 {
        a + k
    } else if s < 0 {
        a - k
    } else {
        a
    }
}

/// The piece on `(r, c)`, or nothing off the board.
pub open spec fn at(board: Seq<Option<Piece>>, r: int, c: int) -> Option<Piece> {
    if 0 <= r < 8 && 0 <= c < 8 {
        board[r * 8 + c]
    } else {
        None
    }
}

/// Same row or same column, but not the same square.
pub open spec fn ortho_line(fr: int, fc: int, tr: int, tc: int) -> bool {
    (fr == tr) != (fc == tc)
}

/// On a common diagonal, but not the same square.
pub open spec fn diag_line(fr: int, fc: int, tr: int, tc: int) -> bool {
    abs(tr - fr) == abs(tc - fc) && tr != fr
}

/// Every square strictly between `(fr, fc)` and `(tr, tc)` is empty (for
/// squares on a common line).
pub open spec fn clear_between(board: Seq<Option<Piece>>, fr: int, fc: int, tr: int, tc: int) -> bool {
    let n = if abs(tr - fr) > abs(tc - fc) {
        abs(tr - fr)
    } else {
        abs(tc - fc)
    };
    forall|k: int|
        0 < k < n ==> #[trigger] at(board, step(fr, sign(tr - fr), k), step(fc, sign(tc - fc), k)) is None
}

pub open spec fn knight_jump(fr: int, fc: int, tr: int, tc: int) -> bool {
    (abs(tr - fr) == 1 && abs(tc - fc) == 2) || (abs(tr - fr) == 2 && abs(tc - fc) == 1)
}

pub open spec fn king_step(fr: int, fc: int, tr: int, tc: int) -> bool {
    abs(tr - fr) <= 1 && abs(tc - fc) <= 1 && !(tr == fr && tc == fc)
}

/// A slider of kind `kind` standing on `(fr, fc)` reaches `(tr, tc)` along a
/// free line: rooks orthogonally, bishops diagonally, queens either way.
pub open spec fn slides_to(board: Seq<Option<Piece>>, kind: Kind, fr: int, fc: int, tr: int, tc: int) -> bool {
    let line = match kind {
        Kind::Rook => ortho_line(fr, fc, tr, tc),
        Kind::Bishop => diag_line(fr, fc, tr, tc),
        _ => ortho_line(fr, fc, tr, tc) || diag_line(fr, fc, tr, tc),
    };
    line && clear_between(board, fr, fc, tr, tc)
}

/// The piece `p` standing on square `s` attacks square `t`.
pub open spec fn attacks_spec(board: Seq<Option<Piece>>, p: Piece, s: int, t: int) -> bool {
    let (sr, sc, tr, tc) = (s / 8, s % 8, t / 8, t % 8);
    match p.kind {
        Kind::Pawn => tr == sr + pawn_dir(p.side) && abs(tc - sc) == 1,
        Kind::Knight => knight_jump(sr, sc, tr, tc),
        Kind::King => king_step(sr, sc, tr, tc),
        _ => slides_to(board, p.kind, sr, sc, tr, tc),
    }
}

/// Square `s` holds a piece of side `by` attacking square `t`.
pub open spec fn attacker_on(board: Seq<Option<Piece>>, s: int, by: Side, t: int) -> bool {
    match board[s] {
        Some(p) => p.side == by && attacks_spec(board, p, s, t),
        None => false,
    }
}

/// Square `t` is attacked by some piece of side `by`.
pub open spec fn attacked_spec(board: Seq<Option<Piece>>, t: int, by: Side) -> bool {
    exists|s: int| 0 <= s < 64 && #[trigger] attacker_on(board, s, by, t)
}

/// First square from `i` on holding `side`'s king.
pub open spec fn king_from(board: Seq<Option<Piece>>, side: Side, i: int) -> Option<int>
    decreases 64 - i,
{
    if i >= 64 || i < 0 {
        None
    } else if board[i] == Some(Piece { side, kind: Kind::King }) {
        Some(i)
    } else {
        king_from(board, side, i + 1)
    }
}

/// `side`'s (first) king stands attacked.
pub open spec fn in_check_spec(board: Seq<Option<Piece>>, side: Side) -> bool {
    match king_from(board, side, 0) {
        Some(k) => attacked_spec(board, k, opposite_of(side)),
        None => false,
    }
}

/// Everything the rules read of a game.
pub struct Position {
    pub board: Seq<Option<Piece>>,
    pub turn: Side,
    pub castling: Seq<bool>,
    pub en_passant: Option<usize>,
    pub last_move: Option<(usize, usize)>,
    pub status: Status,
}

pub open spec fn empty_at(board: Seq<Option<Piece>>, i: int) -> bool {
    board[i] is None
}

pub open spec fn rook_of(side: Side) -> Option<Piece> {
    Some(Piece { side, kind: Kind::Rook })
}

/// The king of `side` on `from` may castle to `to`: the king stands on its
/// home e-file square out of check, the right is intact, the rook waits in
/// its corner, the path is empty and the squares the king crosses (its
/// destination included) are not attacked.
pub open spec fn castle_spec(p: Position, side: Side, from: int, to: int) -> bool {
    let home = back_rank(side);
    let enemy = opposite_of(side);
    let b = p.board;
    &&& from == home * 8 + 4
    &&& !attacked_spec(b, from, enemy)
    &&& {
        ||| (to == home * 8 + 6 && p.castling[kingside_slot(side)] && b[home * 8 + 7] == rook_of(side)
            && empty_at(b, home * 8 + 5) && empty_at(b, home * 8 + 6) && !attacked_spec(
            b,
            home * 8 + 5,
            enemy,
        ) && !attacked_spec(b, home * 8 + 6, enemy))
        ||| (to == home * 8 + 2 && p.castling[queenside_slot(side)] && b[home * 8] == rook_of(side)
            && empty_at(b, home * 8 + 3) && empty_at(b, home * 8 + 2) && empty_at(b, home * 8 + 1)
            && !attacked_spec(b, home * 8 + 3, enemy) && !attacked_spec(b, home * 8 + 2, enemy))
    }
}

/// `to` is empty or holds an enemy of `side`.
pub open spec fn open_for(board: Seq<Option<Piece>>, side: Side, to: int) -> bool {
    match board[to] {
        None => true,
        Some(q) => q.side != side,
    }
}

/// The piece on `from` may move to `to` by its movement rules, before the
/// check on its own king's safety.
pub open spec fn pseudo_spec(p: Position, from: int, to: int) -> bool {
    let b = p.board;
    let (fr, fc, tr, tc) = (from / 8, from % 8, to / 8, to % 8);
    &&& 0 <= from < 64
    &&& 0 <= to < 64
    &&& match b[from] {
        None => false,
        Some(pc) => match pc.kind {
            Kind::Pawn => {
                let dir = pawn_dir(pc.side);
                ||| (tc == fc && tr == fr + dir && b[to] is None)
                ||| (tc == fc && fr == pawn_start(pc.side) && tr == fr + 2 * dir && at(b, fr + dir, fc) is None
                    && b[to] is None)
                ||| (abs(tc - fc) == 1 && tr == fr + dir && ((b[to] matches Some(q) && q.side
                    == opposite_of(pc.side)) || p.en_passant == Some(to as usize)))
            },
            Kind::Knight => knight_jump(fr, fc, tr, tc) && open_for(b, pc.side, to),
            Kind::King => (king_step(fr, fc, tr, tc) && open_for(b, pc.side, to)) || castle_spec(
                p,
                pc.side,
                from,
                to,
            ),
            _ => slides_to(b, pc.kind, fr, fc, tr, tc) && open_for(b, pc.side, to),
        },
    }
}

/// The position after `from`→`to` is played (no legality check): the piece
/// moves (capturing whatever stood on `to`), an en passant capture removes
/// the bypassed pawn, castling brings the rook across, castling rights go
/// once the king or a corner rook moves or is captured, a double push leaves
/// an en passant target, pawns reaching the last row become queens, and the
/// turn passes. An empty `from` changes nothing.
pub open spec fn after_spec(p: Position, from: int, to: int) -> Position {
    match p.board[from] {
        None => p,
        Some(pc) => Position {
            board: promoted(
                rook_moved(
                    ep_removed(p.board.update(to, Some(pc)).update(from, None), pc, from, to, p.en_passant),
                    pc,
                    from,
                    to,
                ),
                pc,
                to,
            ),
            turn: opposite_of(p.turn),
            castling: rights_after(p.castling, pc, from, to),
            en_passant: ep_after(pc, from, to),
            last_move: Some((from as usize, to as usize)),
            status: p.status,
        },
    }
}

/// An en passant capture removes the pawn that was bypassed.
pub open spec fn ep_removed(b: Seq<Option<Piece>>, pc: Piece, from: int, to: int, ep: Option<usize>) -> Seq<
    Option<Piece>,
> {
    if pc.kind == Kind::Pawn && from % 8 != to % 8 && ep == Some(to as usize) {
        b.update((from / 8) * 8 + to % 8, None)
    } else {
        b
    }
}

/// A king moving two files brings the rook of that corner across.
pub open spec fn rook_moved(b: Seq<Option<Piece>>, pc: Piece, from: int, to: int) -> Seq<Option<Piece>> {
    if pc.kind == Kind::King && abs(to % 8 - from % 8) == 2 {
        let r = from / 8;
        let rf = if to % 8 == 6 {
            r * 8 + 7
        } else {
            r * 8
        };
        let rt = if to % 8 == 6 {
            r * 8 + 5
        } else {
            r * 8 + 3
        };
        b.update(rt, b[rf]).update(rf, None)
    } else {
        b
    }
}

/// Castling rights left: a king move drops both of its side's, and a move
/// from or onto a rook corner drops that corner's.
pub open spec fn rights_after(c: Seq<bool>, pc: Piece, from: int, to: int) -> Seq<bool> {
    let c1 = if pc.kind == Kind::King {
        c.update(kingside_slot(pc.side), false).update(queenside_slot(pc.side), false)
    } else {
        c
    };
    Seq::new(4, |i: int| c1[i] && from != corner_of(i) && to != corner_of(i))
}

/// A double pawn push leaves the square it crossed as en passant target.
pub open spec fn ep_after(pc: Piece, from: int, to: int) -> Option<usize> {
    if pc.kind == Kind::Pawn && abs(from / 8 - to / 8) == 2 {
        Some(((from + to) / 2) as usize)
    } else {
        None
    }
}

/// A pawn reaching its last row becomes a queen.
pub open spec fn promoted(b: Seq<Option<Piece>>, pc: Piece, to: int) -> Seq<Option<Piece>> {
    if pc.kind == Kind::Pawn && to / 8 == promo_row(pc.side) {
        b.update(to, Some(Piece { side: pc.side, kind: Kind::Queen }))
    } else {
        b
    }
}

/// `from`→`to` is a legal move: the game is live, `from` holds a piece of
/// the side to move, the move follows that piece's rules, and the mover's
/// king is not attacked afterwards.
pub open spec fn legal_spec(p: Position, from: int, to: int) -> bool {
    &&& p.status == Status::Ongoing
    &&& 0 <= from < 64
    &&& p.board[from] matches Some(pc) && pc.side == p.turn
    &&& pseudo_spec(p, from, to)
    &&& !in_check_spec(after_spec(p, from, to).board, p.turn)
}

/// Squares below `n` that the piece on `from` may move to by its rules,
/// ascending.
pub open spec fn pseudo_upto(p: Position, from: int, n: int) -> Seq<usize>
    decreases n,
{
    if n <= 0 {
        Seq::empty()
    } else {
        pseudo_upto(p, from, n - 1) + if pseudo_spec(p, from, n - 1) {
            seq![(n - 1) as usize]
        } else {
            Seq::empty()
        }
    }
}

/// The entries of `s` after which the mover's king is safe.
pub open spec fn safe_filter(p: Position, from: int, s: Seq<usize>) -> Seq<usize>
    decreases s.len(),
{
    if s.len() == 0 {
        s
    } else {
        safe_filter(p, from, s.drop_last()) + if !in_check_spec(
            after_spec(p, from, s.last() as int).board,
            p.turn,
        ) {
            seq![s.last()]
        } else {
            Seq::empty()
        }
    }
}

/// What [`Chess::legal_targets`] returns: the legal destinations from
/// `from`, ascending.
pub open spec fn legal_targets_spec(p: Position, from: int) -> Seq<usize> {
    if p.status != Status::Ongoing || from < 0 || from >= 64 {
        Seq::empty()
    } else if !(p.board[from] matches Some(pc) && pc.side == p.turn) {
        Seq::empty()
    } else {
        safe_filter(p, from, pseudo_upto(p, from, 64))
    }
}

/// Some legal move exists.
pub open spec fn any_legal(p: Position) -> bool {
    exists|f: int, t: int| #[trigger] legal_spec(p, f, t)
}

/// The game state the side to move faces: play on while it has a legal
/// move; otherwise checkmate (the other side wins) or stalemate.
pub open spec fn status_for(p: Position) -> Status {
    if any_legal(p) {
        Status::Ongoing
    } else if in_check_spec(p.board, p.turn) {
        Status::Won(opposite_of(p.turn))
    } else {
        Status::Stalemate
    }
}

/// `p` with its status recomputed.
pub open spec fn refreshed(p: Position) -> Position {
    Position { status: status_for(p), ..p }
}

pub open spec fn back_kind(c: int) -> Kind {
    if c == 0 || c == 7 {
        Kind::Rook
    } else if c == 1 || c == 6 {
        Kind::Knight
    } else if c == 2 || c == 5 {
        Kind::Bishop
    } else if c == 3 {
        Kind::Queen
    } else {
        Kind::King
    }
}

/// The opening setup.
pub open spec fn start_piece(i: int) -> Option<Piece> {
    let (r, c) = (i / 8, i % 8);
    if r == 0 {
        Some(Piece { side: Side::Black, kind: back_kind(c) })
    } else if r == 1 {
        Some(Piece { side: Side::Black, kind: Kind::Pawn })
    } else if r == 6 {
        Some(Piece { side: Side::White, kind: Kind::Pawn })
    } else if r == 7 {
        Some(Piece { side: Side::White, kind: back_kind(c) })
    } else {
        None
    }
}

/// An empty board with `pieces` placed in order (a later entry replaces an
/// earlier one on the same square).
pub open spec fn placed(pieces: Seq<((usize, usize), Piece)>) -> Seq<Option<Piece>>
    decreases pieces.len(),
{
    if pieces.len() == 0 {
        Seq::new(64, |i: int| None)
    } else {
        let ((r, c), pc) = pieces.last();
        placed(pieces.drop_last()).update(r * 8 + c, Some(pc))
    }
}

#[derive(Clone, Copy)]
pub struct Chess {
    board: [Option<Piece>; 64],
    turn: Side,
    /// Order: white kingside, white queenside, black kingside, black queenside.
    castling: [bool; 4],
    en_passant: Option<usize>,
    last_move: Option<(usize, usize)>,
    status: Status,
}

impl View for Chess {
    type V = Position;

    closed spec fn view(&self) -> Position {
        Position {
            board: self.board@,
            turn: self.turn,
            castling: self.castling@,
            en_passant: self.en_passant,
            last_move: self.last_move,
            status: self.status,
        }
    }
}

fn piece_at(board: &[Option<Piece>; 64], r: isize, c: isize) -> (o: Option<Piece>)
    ensures
        o == at(board@, r as int, c as int),
{
    if r < 0 || r >= 8 || c < 0 || c >= 8 {
        return None;
    }
    board[(r * 8 + c) as usize]
}

/// Whether every square strictly between two squares on a common line is
/// empty.
fn path_clear(board: &[Option<Piece>; 64], fr: usize, fc: usize, tr: usize, tc: usize) -> (ok: bool)
    requires
        fr < 8,
        fc < 8,
        tr < 8,
        tc < 8,
        ortho_line(fr as int, fc as int, tr as int, tc as int) || diag_line(fr as int, fc as int, tr as int, tc as int),
    ensures
        ok == clear_between(board@, fr as int, fc as int, tr as int, tc as int),
{
    let dr = if tr > fr {
        tr - fr
    } else {
        fr - tr
    };
    let dc = if tc > fc {
        tc - fc
    } else {
        fc - tc
    };
    let n = if dr > dc {
        dr
    } else {
        dc
    };
    let mut k: usize = 1;
    while k < n
        invariant
            fr < 8,
            fc < 8,
            tr < 8,
            tc < 8,
            ortho_line(fr as int, fc as int, tr as int, tc as int) || diag_line(fr as int, fc as int, tr as int, tc as int),
            dr == abs(tr - fr),
            dc == abs(tc - fc),
            n == if dr > dc { dr } else { dc },
            1 <= k,
            forall|j: int|
                0 < j < k ==> #[trigger] at(board@, step(fr as int, sign(tr - fr), j), step(fc as int, sign(tc - fc), j)) is None,
        decreases n - k,
    {
        let r = if tr > fr {
            fr + k
        } else if tr < fr {
            fr - k
        } else {
            fr
        };
        let c = if tc > fc {
            fc + k
        } else if tc < fc {
            fc - k
        } else {
            fc
        };
        assert(at(board@, step(fr as int, sign(tr - fr), k as int), step(fc as int, sign(tc - fc), k as int))
            == board@[r * 8 + c]);
        if board[r * 8 + c].is_some() {
            return false;
        }
        k += 1;
    }
    true
}

/// Whether piece `p` on square `s` attacks square `t`.
fn attacks(board: &[Option<Piece>; 64], p: Piece, s: usize, t: usize) -> (r: bool)
    requires
        s < 64,
        t < 64,
    ensures
        r == attacks_spec(board@, p, s as int, t as int),
{
    let (sr, sc, tr, tc) = (s / 8, s % 8, t / 8, t % 8);
    let adr = if tr > sr {
        tr - sr
    } else {
        sr - tr
    };
    let adc = if tc > sc {
        tc - sc
    } else {
        sc - tc
    };
    let ortho = (adr == 0) != (adc == 0);
    let diag = adr == adc && adr != 0;
    match p.kind {
        Kind::Pawn => match p.side {
            Side::White => tr + 1 == sr && adc == 1,
            Side::Black => tr == sr + 1 && adc == 1,
        },
        Kind::Knight => (adr == 1 && adc == 2) || (adr == 2 && adc == 1),
        Kind::King => adr <= 1 && adc <= 1 && !(adr == 0 && adc == 0),
        Kind::Rook => ortho && path_clear(board, sr, sc, tr, tc),
        Kind::Bishop => diag && path_clear(board, sr, sc, tr, tc),
        Kind::Queen => (ortho || diag) && path_clear(board, sr, sc, tr, tc),
    }
}

/// True when `target` is attacked by any piece of side `by`.
fn is_attacked(board: &[Option<Piece>; 64], target: usize, by: Side) -> (r: bool)
    requires
        target < 64,
    ensures
        r == attacked_spec(board@, target as int, by),
{
    let mut s: usize = 0;
    while s < 64
        invariant
            0 <= s <= 64,
            target < 64,
            forall|j: int| 0 <= j < s ==> !#[trigger] attacker_on(board@, j, by, target as int),
        decreases 64 - s,
    {
        match board[s] {
            Some(p) => {
                if p.side == by && attacks(board, p, s, target) {
                    assert(attacker_on(board@, s as int, by, target as int));
                    return true;
                }
            },
            None => {},
        }
        s += 1;
    }
    false
}

impl Chess {
    pub fn new() -> (g: Self)
        ensures
            forall|i: int| 0 <= i < 64 ==> #[trigger] g@.board[i] == start_piece(i),
            g@.turn == Side::White,
            g@.castling == seq![true, true, true, true],
            g@.en_passant is None,
            g@.last_move is None,
            g@.status == Status::Ongoing,
    {
        let mut board: [Option<Piece>; 64] = [None; 64];
        let mut c: usize = 0;
        while c < 8
            invariant
                0 <= c <= 8,
                forall|i: int| 0 <= i < 64 && (i % 8 < c || (2 <= i / 8 < 6)) ==> #[trigger] board@[i] == start_piece(i),
            decreases 8 - c,
        {
            let kind = if c == 0 || c == 7 {
                Kind::Rook
            } else if c == 1 || c == 6 {
                Kind::Knight
            } else if c == 2 || c == 5 {
                Kind::Bishop
            } else if c == 3 {
                Kind::Queen
            } else {
                Kind::King
            };
            board[c] = Some(Piece { side: Side::Black, kind });
            board[8 + c] = Some(Piece { side: Side::Black, kind: Kind::Pawn });
            board[48 + c] = Some(Piece { side: Side::White, kind: Kind::Pawn });
            board[56 + c] = Some(Piece { side: Side::White, kind });
            c += 1;
        }
        Chess {
            board,
            turn: Side::White,
            castling: [true; 4],
            en_passant: None,
            last_move: None,
            status: Status::Ongoing,
        }
    }

    /// A position set up directly: `pieces` placed on an otherwise empty
    /// board with `turn` to move, all castling rights intact, no en passant
    /// target, and the status computed as if mid-game.
    pub fn set_board(pieces: &[((usize, usize), Piece)], turn: Side) -> (g: Self)
        requires
            forall|k: int| 0 <= k < pieces@.len() ==> (#[trigger] pieces@[k]).0.0 < 8 && pieces@[k].0.1 < 8,
        ensures
            g@ == refreshed(
                Position {
                    board: placed(pieces@),
                    turn,
                    castling: seq![true, true, true, true],
                    en_passant: None,
                    last_move: None,
                    status: Status::Ongoing,
                },
            ),
    {
        let mut state = Chess {
            board: [None; 64],
            turn,
            castling: [true; 4],
            en_passant: None,
            last_move: None,
            status: Status::Ongoing,
        };
        let mut k: usize = 0;
        while k < pieces.len()
            invariant
                0 <= k <= pieces@.len(),
                forall|j: int| 0 <= j < pieces@.len() ==> (#[trigger] pieces@[j]).0.0 < 8 && pieces@[j].0.1 < 8,
                state.board@ == placed(pieces@.take(k as int)),
                state.turn == turn,
                state.castling@ == seq![true, true, true, true],
                state.en_passant is None,
                state.last_move is None,
                state.status == Status::Ongoing,
            decreases pieces@.len() - k,
        {
            let ((r, c), piece) = pieces[k];
            assert(pieces@.take(k + 1).drop_last() =~= pieces@.take(k as int));
            state.board[r * 8 + c] = Some(piece);
            k += 1;
        }
        assert(pieces@.take(pieces@.len() as int) =~= pieces@);
        state.refresh_status();
        state
    }

    pub fn board(&self) -> (r: &[Option<Piece>; 64])
        ensures
            r@ == self@.board,
    {
        &self.board
    }

    pub fn turn(&self) -> (r: Side)
        ensures
            r == self@.turn,
    {
        self.turn
    }

    pub fn status(&self) -> (r: Status)
        ensures
            r == self@.status,
    {
        self.status
    }

    pub fn last_move(&self) -> (r: Option<(usize, usize)>)
        ensures
            r == self@.last_move,
    {
        self.last_move
    }

    /// Castling rights: white kingside, white queenside, black kingside,
    /// black queenside.
    pub fn castling(&self) -> (r: [bool; 4])
        ensures
            r@ == self@.castling,
    {
        self.castling
    }

    /// The square a pawn may capture onto en passant, if any.
    pub fn en_passant(&self) -> (r: Option<usize>)
        ensures
            r == self@.en_passant,
    {
        self.en_passant
    }

    /// True when the side to move is in check.
    pub fn in_check(&self) -> (r: bool)
        ensures
            r == in_check_spec(self@.board, self@.turn),
    {
        self.in_check_for(self.turn)
    }

    fn in_check_for(&self, side: Side) -> (r: bool)
        ensures
            r == in_check_spec(self@.board, side),
    {
        match self.find_king(side) {
            Some(k) => is_attacked(&self.board, k, side.opposite()),
            None => false,
        }
    }

    fn find_king(&self, side: Side) -> (r: Option<usize>)
        ensures
            r matches Some(k) ==> king_from(self@.board, side, 0) == Some(k as int) && k < 64,
            r is None ==> king_from(self@.board, side, 0) is None,
    {
        let mut i: usize = 0;
        while i < 64
            invariant
                0 <= i <= 64,
                king_from(self.board@, side, 0) == king_from(self.board@, side, i as int),
            decreases 64 - i,
        {
            match self.board[i] {
                Some(p) => {
                    if p.side == side && p.kind == Kind::King {
                        return Some(i);
                    }
                },
                None => {},
            }
            i += 1;
        }
        None
    }
}

impl Chess {
    /// Whether the king of `side` on `from` may castle to `to`.
    fn can_castle(&self, side: Side, from: usize, to: usize) -> (r: bool)
        requires
            from < 64,
            to < 64,
        ensures
            r == castle_spec(self@, side, from as int, to as int),
    {
        let enemy = side.opposite();
        let home: usize = match side {
            Side::White => 56,
            Side::Black => 0,
        };
        if from != home + 4 || is_attacked(&self.board, home + 4, enemy) {
            return false;
        }
        let rook_home = |q: Option<Piece>| -> (b: bool)
            ensures
                b == (q == rook_of(side)),
        {
            match q {
                Some(pc) => pc.side == side && pc.kind == Kind::Rook,
                None => false,
            }
        };
        if to == home + 6 {
            self.castling[side_kingside(side)] && rook_home(self.board[home + 7])
                && self.board[home + 5].is_none() && self.board[home + 6].is_none()
                && !is_attacked(&self.board, home + 5, enemy) && !is_attacked(&self.board, home + 6, enemy)
        } else if to == home + 2 {
            self.castling[side_queenside(side)] && rook_home(self.board[home])
                && self.board[home + 3].is_none() && self.board[home + 2].is_none()
                && self.board[home + 1].is_none() && !is_attacked(&self.board, home + 3, enemy)
                && !is_attacked(&self.board, home + 2, enemy)
        } else {
            false
        }
    }

    /// Whether the piece on `from` may move to `to` by its movement rules.
    fn is_pseudo(&self, from: usize, to: usize) -> (r: bool)
        requires
            from < 64,
            to < 64,
        ensures
            r == pseudo_spec(self@, from as int, to as int),
    {
        let piece = match self.board[from] {
            Some(p) => p,
            None => return false,
        };
        let (fr, fc, tr, tc) = (from / 8, from % 8, to / 8, to % 8);
        let adr = if tr > fr {
            tr - fr
        } else {
            fr - tr
        };
        let adc = if tc > fc {
            tc - fc
        } else {
            fc - tc
        };
        let open = match self.board[to] {
            None => true,
            Some(q) => q.side != piece.side,
        };
        match piece.kind {
            Kind::Pawn => {
                let to_empty = self.board[to].is_none();
                let fwd = match piece.side {
                    Side::White => tr + 1 == fr,
                    Side::Black => tr == fr + 1,
                };
                if tc == fc && fwd && to_empty {
                    return true;
                }
                let double = match piece.side {
                    Side::White => fr == 6 && tr == 4 && self.board[40 + fc].is_none(),
                    Side::Black => fr == 1 && tr == 3 && self.board[16 + fc].is_none(),
                };
                if tc == fc && double && to_empty {
                    return true;
                }
                let enemy = match self.board[to] {
                    Some(q) => q.side != piece.side,
                    None => false,
                };
                let ep = match self.en_passant {
                    Some(e) => e == to,
                    None => false,
                };
                adc == 1 && fwd && (enemy || ep)
            },
            Kind::Knight => ((adr == 1 && adc == 2) || (adr == 2 && adc == 1)) && open,
            Kind::King => (adr <= 1 && adc <= 1 && !(adr == 0 && adc == 0) && open) || self.can_castle(
                piece.side,
                from,
                to,
            ),
            Kind::Rook => (adr == 0) != (adc == 0) && path_clear(&self.board, fr, fc, tr, tc) && open,
            Kind::Bishop => adr == adc && adr != 0 && path_clear(&self.board, fr, fc, tr, tc) && open,
            Kind::Queen => (((adr == 0) != (adc == 0)) || (adr == adc && adr != 0)) && path_clear(
                &self.board,
                fr,
                fc,
                tr,
                tc,
            ) && open,
        }
    }

    /// Move generation before the king-safety filter: every square the piece
    /// on `from` may move to by its rules, ascending.
    fn pseudo_targets(&self, from: usize) -> (out: Vec<usize>)
        requires
            from < 64,
        ensures
            out@ == pseudo_upto(self@, from as int, 64),
    {
        let mut out: Vec<usize> = Vec::new();
        let mut to: usize = 0;
        while to < 64
            invariant
                0 <= to <= 64,
                from < 64,
                out@ == pseudo_upto(self@, from as int, to as int),
            decreases 64 - to,
        {
            if self.is_pseudo(from, to) {
                out.push(to);
            }
            to += 1;
        }
        out
    }

    /// Apply a move without checking it: captures, en passant removal, castle
    /// rook shuffle, promotion, rights bookkeeping, ep target, turn toggle.
    fn apply_move(&mut self, from: usize, to: usize)
        requires
            from < 64,
            to < 64,
        ensures
            final(self)@ == after_spec(old(self)@, from as int, to as int),
    {
        let piece = match self.board[from] {
            Some(p) => p,
            None => return ,
        };
        self.board[to] = Some(piece);
        self.board[from] = None;
        remove_ep_victim(&mut self.board, piece, from, to, self.en_passant);
        shuffle_rook(&mut self.board, piece, from, to);
        update_rights(&mut self.castling, piece, from, to);
        self.en_passant = ep_target(piece, from, to);
        self.last_move = Some((from, to));
        promote(&mut self.board, piece, to);
        self.turn = self.turn.opposite();
    }

    /// True when making `from`->`to` would not leave the mover's king attacked.
    fn leaves_king_safe(&self, from: usize, to: usize) -> (r: bool)
        requires
            from < 64,
            to < 64,
        ensures
            r == !in_check_spec(after_spec(self@, from as int, to as int).board, self@.turn),
    {
        let mut probe = *self;
        probe.apply_move(from, to);
        !probe.in_check_for(self.turn)
    }

    /// Every legal destination from `from`, ascending. Empty unless `from`
    /// holds a piece of the side to move and the game is still live.
    pub fn legal_targets(&self, from: usize) -> (out: Vec<usize>)
        ensures
            out@ == legal_targets_spec(self@, from as int),
    {
        match self.status {
            Status::Ongoing => {},
            _ => return Vec::new(),
        }
        if from >= 64 {
            return Vec::new();
        }
        match self.board[from] {
            Some(p) => {
                if p.side != self.turn {
                    return Vec::new();
                }
            },
            None => return Vec::new(),
        }
        let cands = self.pseudo_targets(from);
        proof {
            lemma_pseudo_upto(self@, from as int, 64, 0);
        }
        let mut out: Vec<usize> = Vec::new();
        let mut k: usize = 0;
        while k < cands.len()
            invariant
                0 <= k <= cands@.len(),
                from < 64,
                cands@ == pseudo_upto(self@, from as int, 64),
                forall|j: int| 0 <= j < cands@.len() ==> #[trigger] cands@[j] < 64,
                out@ == safe_filter(self@, from as int, cands@.take(k as int)),
            decreases cands@.len() - k,
        {
            let to = cands[k];
            if self.leaves_king_safe(from, to) {
                out.push(to);
            }
            assert(cands@.take(k + 1).drop_last() =~= cands@.take(k as int));
            k += 1;
        }
        assert(cands@.take(cands@.len() as int) =~= cands@);
        out
    }

    /// Apply a move iff it is legal; toggles the turn and recomputes status.
    /// Returns false when the move is rejected.
    pub fn play(&mut self, from: usize, to: usize) -> (ok: bool)
        ensures
            ok == legal_spec(old(self)@, from as int, to as int),
            ok ==> final(self)@ == refreshed(after_spec(old(self)@, from as int, to as int)),
            !ok ==> final(self)@ == old(self)@,
            ok == legal_targets_spec(old(self)@, from as int).contains(to),
            ok ==> {
                &&& final(self)@.turn == opposite_of(old(self)@.turn)
                &&& final(self)@.last_move == Some((from, to))
                &&& final(self)@.board[from as int] is None
                &&& final(self)@.board[to as int] matches Some(pc) && pc.side == old(self)@.turn
            },
    {
        proof {
            lemma_legal_targets_contains(self@, from as int, to as int);
            if legal_spec(self@, from as int, to as int) {
                law_play_moves_piece(self@, from as int, to as int);
            }
        }
        let targets = self.legal_targets(from);
        let mut found = false;
        let mut k: usize = 0;
        while k < targets.len()
            invariant
                0 <= k <= targets@.len(),
                found == exists|j: int| 0 <= j < k && targets@[j] == to,
            decreases targets@.len() - k,
        {
            if targets[k] == to {
                found = true;
            }
            k += 1;
        }
        proof {
            lemma_legal_targets_contains(self@, from as int, to as int);
        }
        if !found {
            return false;
        }
        self.apply_move(from, to);
        self.refresh_status();
        true
    }

    /// Recompute game-over state for the side to move.
    fn refresh_status(&mut self)
        requires
            old(self)@.status == Status::Ongoing,
        ensures
            final(self)@ == refreshed(old(self)@),
    {
        let mut any = false;
        let mut i: usize = 0;
        while i < 64
            invariant
                0 <= i <= 64,
                any == exists|f: int| 0 <= f < i && #[trigger] legal_targets_spec(self@, f).len() > 0,
            decreases 64 - i,
        {
            if self.legal_targets(i).len() > 0 {
                any = true;
            }
            i += 1;
        }
        proof {
            lemma_any_legal(self@);
        }
        self.status = if any {
            Status::Ongoing
        } else if self.in_check() {
            Status::Won(self.turn.opposite())
        } else {
            Status::Stalemate
        };
    }
}

/// En passant removes the bypassed pawn rather than anything on `to`.
fn remove_ep_victim(board: &mut [Option<Piece>; 64], pc: Piece, from: usize, to: usize, ep: Option<usize>)
    requires
        from < 64,
        to < 64,
    ensures
        final(board)@ == ep_removed(old(board)@, pc, from as int, to as int, ep),
{
    let hit = match ep {
        Some(e) => e == to,
        None => false,
    };
    if pc.kind == Kind::Pawn && col(from) != col(to) && hit {
        board[row(from) * 8 + col(to)] = None;
    }
}

/// Castling shuffles the rook over as well.
fn shuffle_rook(board: &mut [Option<Piece>; 64], pc: Piece, from: usize, to: usize)
    requires
        from < 64,
        to < 64,
    ensures
        final(board)@ == rook_moved(old(board)@, pc, from as int, to as int),
{
    let cf = col(from);
    let ct = col(to);
    let two_files = if ct > cf {
        ct - cf == 2
    } else {
        cf - ct == 2
    };
    if pc.kind == Kind::King && two_files {
        let r = row(from);
        let (rook_from, rook_to) = if ct == 6 {
            (r * 8 + 7, r * 8 + 5)
        } else {
            (r * 8, r * 8 + 3)
        };
        board[rook_to] = board[rook_from];
        board[rook_from] = None;
    }
}

/// Rights vanish once the king or a relevant rook moves or is captured.
fn update_rights(castling: &mut [bool; 4], pc: Piece, from: usize, to: usize)
    ensures
        final(castling)@ == rights_after(old(castling)@, pc, from as int, to as int),
{
    if pc.kind == Kind::King {
        castling[side_kingside(pc.side)] = false;
        castling[side_queenside(pc.side)] = false;
    }
    let ghost c1 = castling@;
    if from == 63 || to == 63 {
        castling[WHITE_KINGSIDE] = false;
    }
    if from == 56 || to == 56 {
        castling[WHITE_QUEENSIDE] = false;
    }
    if from == 7 || to == 7 {
        castling[BLACK_KINGSIDE] = false;
    }
    if from == 0 || to == 0 {
        castling[BLACK_QUEENSIDE] = false;
    }
    assert(castling@ =~= Seq::new(4, |i: int| c1[i] && from != corner_of(i) && to != corner_of(i)));
}

/// Double pushes hand the opponent an en passant target.
fn ep_target(pc: Piece, from: usize, to: usize) -> (r: Option<usize>)
    requires
        from < 64,
        to < 64,
    ensures
        r == ep_after(pc, from as int, to as int),
{
    let rf = row(from);
    let rt = row(to);
    let two_rows = if rt > rf {
        rt - rf == 2
    } else {
        rf - rt == 2
    };
    if pc.kind == Kind::Pawn && two_rows {
        Some((from + to) / 2)
    } else {
        None
    }
}

/// Pawns reaching their final rank auto-promote to queens.
fn promote(board: &mut [Option<Piece>; 64], pc: Piece, to: usize)
    requires
        to < 64,
    ensures
        final(board)@ == promoted(old(board)@, pc, to as int),
{
    let last: usize = match pc.side {
        Side::White => 0,
        Side::Black => 7,
    };
    if pc.kind == Kind::Pawn && row(to) == last {
        board[to] = Some(Piece { side: pc.side, kind: Kind::Queen });
    }
}

proof fn lemma_pseudo_upto(p: Position, from: int, n: int, x: int)
    requires
        0 <= n <= 64,
    ensures
        pseudo_upto(p, from, n).contains(x as usize) && 0 <= x < 64 <==> 0 <= x < n && pseudo_spec(p, from, x),
        forall|j: int| 0 <= j < pseudo_upto(p, from, n).len() ==> #[trigger] pseudo_upto(p, from, n)[j] < n,
    decreases n,
{
    if n > 0 {
        lemma_pseudo_upto(p, from, n - 1, x);
        let prev = pseudo_upto(p, from, n - 1);
        let cur = pseudo_upto(p, from, n);
        if 0 <= x < 64 && cur.contains(x as usize) {
            let j = choose|j: int| 0 <= j < cur.len() && cur[j] == x as usize;
            if j < prev.len() {
                assert(prev[j] == cur[j]);
            }
        }
        if 0 <= x < n - 1 && pseudo_spec(p, from, x) {
            let j = choose|j: int| 0 <= j < prev.len() && prev[j] == x as usize;
            assert(cur[j] == prev[j]);
        }
        if x == n - 1 && pseudo_spec(p, from, x) {
            assert(cur[cur.len() - 1] == x as usize);
        }
        assert forall|j: int| 0 <= j < cur.len() implies #[trigger] cur[j] < n by {
            if j < prev.len() {
                assert(cur[j] == prev[j]);
            }
        }
    }
}

proof fn lemma_safe_filter(p: Position, from: int, s: Seq<usize>, x: usize)
    ensures
        safe_filter(p, from, s).contains(x) <==> s.contains(x) && !in_check_spec(
            after_spec(p, from, x as int).board,
            p.turn,
        ),
    decreases s.len(),
{
    if s.len() > 0 {
        let t = s.drop_last();
        lemma_safe_filter(p, from, t, x);
        let prev = safe_filter(p, from, t);
        let cur = safe_filter(p, from, s);
        if cur.contains(x) {
            let j = choose|j: int| 0 <= j < cur.len() && cur[j] == x;
            if j < prev.len() {
                assert(prev[j] == cur[j]);
                let q = choose|q: int| 0 <= q < t.len() && t[q] == x;
                assert(s[q] == x);
            } else {
                assert(s[s.len() - 1] == x);
            }
        }
        if s.contains(x) && !in_check_spec(after_spec(p, from, x as int).board, p.turn) {
            let q = choose|q: int| 0 <= q < s.len() && s[q] == x;
            if q < t.len() {
                assert(t[q] == x);
                let j = choose|j: int| 0 <= j < prev.len() && prev[j] == x;
                assert(cur[j] == prev[j]);
            } else {
                assert(cur[cur.len() - 1] == x);
            }
        }
    }
}

/// A legal move passes the turn, records itself as the last move, empties
/// its start square and leaves a piece of the mover on its target square.
pub proof fn law_play_moves_piece(p: Position, from: int, to: int)
    requires
        p.board.len() == 64,
        legal_spec(p, from, to),
    ensures
        ({
            let q = refreshed(after_spec(p, from, to));
            &&& q.turn == opposite_of(p.turn)
            &&& q.last_move == Some((from as usize, to as usize))
            &&& q.board[from] is None
            &&& q.board[to] matches Some(pc) && pc.side == p.turn
        }),
{
    let pc = p.board[from]->Some_0;
    let (fr, fc, tr, tc) = (from / 8, from % 8, to / 8, to % 8);
    assert(0 <= to < 64);
    assert(from == fr * 8 + fc && to == tr * 8 + tc && 0 <= fc < 8 && 0 <= tc < 8);
    assert(from != to) by {
        if from == to {
            if pc.kind == Kind::Pawn {
                assert(tr != fr);
            } else if pc.kind == Kind::King {
                if castle_spec(p, pc.side, from, to) {
                } else {
                    assert(!open_for(p.board, pc.side, to));
                }
            } else {
                assert(!open_for(p.board, pc.side, to));
            }
        }
    }
    let b1 = p.board.update(to, Some(pc)).update(from, None);
    let b2 = ep_removed(b1, pc, from, to, p.en_passant);
    if pc.kind == Kind::Pawn && fc != tc && p.en_passant == Some(to as usize) {
        let sq = fr * 8 + tc;
        assert(sq != from);
        assert(tr != fr);
        assert(sq != to);
    }
    assert(b2[from] is None && b2[to] == Some(pc));
    let b3 = rook_moved(b2, pc, from, to);
    if pc.kind == Kind::King && abs(tc - fc) == 2 {
        assert(castle_spec(p, pc.side, from, to));
        let home = back_rank(pc.side);
        assert(fr == home && fc == 4);
        assert(tr == home && (tc == 6 || tc == 2));
    }
    assert(b3[from] is None && b3[to] == Some(pc));
}

/// The legal targets listed from `from` are exactly the legal moves from it.
pub proof fn lemma_legal_targets_contains(p: Position, from: int, to: int)
    ensures
        legal_targets_spec(p, from).contains(to as usize) && 0 <= to < 64 <==> legal_spec(p, from, to),
        legal_targets_spec(p, from).contains(to as usize) ==> (to as usize) < 64,
{
    if p.status == Status::Ongoing && 0 <= from < 64 && (p.board[from] matches Some(pc) && pc.side == p.turn) {
        lemma_pseudo_upto(p, from, 64, to);
        lemma_safe_filter(p, from, pseudo_upto(p, from, 64), to as usize);
        if legal_targets_spec(p, from).contains(to as usize) {
            let ps = pseudo_upto(p, from, 64);
            let j = choose|j: int| 0 <= j < ps.len() && ps[j] == to as usize;
            assert(ps[j] < 64);
        }
    }
}

proof fn lemma_any_legal(p: Position)
    ensures
        (exists|f: int| 0 <= f < 64 && #[trigger] legal_targets_spec(p, f).len() > 0) <==> any_legal(p),
{
    if exists|f: int| 0 <= f < 64 && #[trigger] legal_targets_spec(p, f).len() > 0 {
        let f = choose|f: int| 0 <= f < 64 && #[trigger] legal_targets_spec(p, f).len() > 0;
        let s = legal_targets_spec(p, f);
        let x = s[0];
        assert(s.contains(x));
        lemma_pseudo_upto(p, f, 64, x as int);
        lemma_safe_filter(p, f, pseudo_upto(p, f, 64), x);
        let j = choose|j: int| 0 <= j < pseudo_upto(p, f, 64).len() && pseudo_upto(p, f, 64)[j] == x;
        assert(pseudo_upto(p, f, 64)[j] < 64);
        lemma_legal_targets_contains(p, f, x as int);
        assert(legal_spec(p, f, x as int));
    }
    if any_legal(p) {
        let (f, t) = choose|f: int, t: int| #[trigger] legal_spec(p, f, t);
        lemma_legal_targets_contains(p, f, t);
        assert(legal_targets_spec(p, f).contains(t as usize));
        assert(legal_targets_spec(p, f).len() > 0);
    }
}

/// After a legal move the side that moved is not in check, and it is the
/// other side's turn.
pub proof fn law_move_leaves_king_safe(p: Position, from: int, to: int)
    requires
        legal_spec(p, from, to),
    ensures
        !in_check_spec(refreshed(after_spec(p, from, to)).board, p.turn),
        refreshed(after_spec(p, from, to)).turn == opposite_of(p.turn),
{
}

/// The king never castles out of, through or into an attacked square: with
/// the side to move's king on its e-file home square (e1 for White, e8 for
/// Black), an enemy attack on the d-file square beside it rules out the
/// queenside target two squares away, an attack on the f-file square rules
/// out the kingside one, and an attack on the king itself rules out both.
pub proof fn law_castle_path_unattacked(p: Position)
    requires
        p.board.len() == 64,
    ensures
        ({
            let e: int = if p.turn == Side::White { 60 } else { 4 };
            let enemy = if p.turn == Side::White { Side::Black } else { Side::White };
            p.board[e] == Some(Piece { side: p.turn, kind: Kind::King }) ==> {
                &&& attacked_spec(p.board, e - 1, enemy) ==> !legal_targets_spec(p, e).contains((e - 2) as usize)
                &&& attacked_spec(p.board, e + 1, enemy) ==> !legal_targets_spec(p, e).contains((e + 2) as usize)
                &&& attacked_spec(p.board, e, enemy) ==> !legal_targets_spec(p, e).contains((e - 2) as usize)
                    && !legal_targets_spec(p, e).contains((e + 2) as usize)
            }
        }),
{
    let e: int = if p.turn == Side::White { 60 } else { 4 };
    lemma_legal_targets_contains(p, e, e - 2);
    lemma_legal_targets_contains(p, e, e + 2);
    assert(!king_step(e / 8, e % 8, (e - 2) / 8, (e - 2) % 8));
    assert(!king_step(e / 8, e % 8, (e + 2) / 8, (e + 2) % 8));
}

/// After any refresh, play goes on exactly while the side to move has a
/// legal move; without one it has lost when in check and is stalemated
/// otherwise.
pub proof fn law_status_follows_legal_moves(p: Position)
    ensures
        refreshed(p).status is Ongoing <==> any_legal(p),
        refreshed(p).status == Status::Won(opposite_of(p.turn)) <==> (!any_legal(p)
            && in_check_spec(p.board, p.turn)),
        refreshed(p).status is Stalemate <==> (!any_legal(p) && !in_check_spec(p.board, p.turn)),
        refreshed(p).board == p.board && refreshed(p).turn == p.turn,
{
}

} // verus!

//! What a chess table does with keys, clicks and computer turns: the
//! picker, the square cursor, picking a piece and moving it.

use crate::chess::ai;
use crate::chess::engine::{Chess, Position, Side, Status, after_spec, any_legal, legal_spec, refreshed, start_piece};
use crate::game_core::seat::{Common, Key, Opponent, Seat};
use vstd::prelude::*;

verus! {

/// Where the cursor starts: e2.
pub const START_CURSOR: usize = 52;

/// A game of chess with its table: the engine, the square cursor, the
/// picked piece, the seats, the side the computer plays and its last move.
pub struct ChessControl {
    pub engine: Chess,
    pub cursor: usize,
    pub selected: Option<usize>,
    pub seat: Seat,
    pub ai_side: Side,
    pub last_ai_move: Option<(usize, usize)>,
}

/// The starting position, White to move.
pub open spec fn opening(p: Position) -> bool {
    &&& forall|i: int| 0 <= i < 64 ==> #[trigger] p.board[i] == start_piece(i)
    &&& p.turn == Side::White
    &&& p.castling == seq![true, true, true, true]
    &&& p.en_passant is None
    &&& p.last_move is None
    &&& p.status == Status::Ongoing
}

/// Square `at` holds a piece of the side to move.
pub open spec fn own_at(p: Position, at: int) -> bool {
    p.board[at] matches Some(pc) && pc.side == p.turn
}

/// Capital `Q` and `M` read as `q` and `m`.
pub open spec fn folded(key: Key) -> Key {
    if key == Key::Char('Q') {
        Key::Char('q')
    } else if key == Key::Char('M') {
        Key::Char('m')
    } else {
        key
    }
}

fn fold(key: Key) -> (k: Key)
    ensures
        k == folded(key),
{
    if key == Key::Char('Q') {
        Key::Char('q')
    } else if key == Key::Char('M') {
        Key::Char('m')
    } else {
        key
    }
}

/// The cursor moved by `(dr, dc)`, kept on the board.
pub open spec fn clamped(c: int, dr: int, dc: int) -> int {
    let r = c / 8 + dr;
    let col = c % 8 + dc;
    let r2 = if r < 0 {
        0
    } else if r > 7 {
        7
    } else {
        r
    };
    let c2 = if col < 0 {
        0
    } else if col > 7 {
        7
    } else {
        col
    };
    r2 * 8 + c2
}

impl ChessControl {
    pub open spec fn wf(self) -> bool {
        self.seat.wf() && self.cursor < 64
    }

    /// A human may pick and move now: the picker is closed, no duel runs,
    /// and against the computer it is the human's side to move.
    pub open spec fn human_turn(self) -> bool {
        !self.seat.setup_open && match self.seat.opponent {
            Opponent::Human => true,
            Opponent::Ai(_) => self.engine@.turn != self.ai_side,
            Opponent::Battle(_) => false,
        }
    }

    /// A computer player owns the position.
    pub open spec fn ai_turn(self) -> bool {
        !self.seat.setup_open && self.engine@.status == Status::Ongoing && match self.seat.opponent {
            Opponent::Human => false,
            Opponent::Ai(_) => self.engine@.turn == self.ai_side,
            Opponent::Battle(_) => true,
        }
    }

    /// A fresh board behind the given seats, the cursor back on e2.
    pub open spec fn restarted(self, seat: Seat) -> bool {
        &&& opening(self.engine@)
        &&& self.cursor == START_CURSOR
        &&& self.selected is None
        &&& self.last_ai_move is None
        &&& self.seat == Seat { quit: false, ..seat }
        &&& self.ai_side == Side::Black
    }

    /// What activating square `at` does when a human may act: the cursor
    /// goes there; with no piece picked an own piece is picked; with one
    /// picked, a legal move there is played, or else an own piece there is
    /// picked instead, or activating the picked square again drops it.
    pub open spec fn activated(self, at: usize, new: ChessControl) -> bool {
        let p = self.engine@;
        &&& new.cursor == at
        &&& new.seat == self.seat
        &&& new.ai_side == self.ai_side
        &&& new.last_ai_move == self.last_ai_move
        &&& match self.selected {
            None => new.engine@ == p && new.selected == (if own_at(p, at as int) {
                Some(at)
            } else {
                None
            }),
            Some(from) => if legal_spec(p, from as int, at as int) {
                new.engine@ == refreshed(after_spec(p, from as int, at as int)) && new.selected is None
            } else {
                new.engine@ == p && new.selected == (if own_at(p, at as int) {
                    Some(at)
                } else if at == from {
                    None
                } else {
                    Some(from)
                })
            },
        }
    }

    /// The picker opened again over the game as it stands, on its first
    /// entry, with no piece picked and no computer move marked.
    pub open spec fn menu_opened(self, new: ChessControl) -> bool {
        new == ChessControl {
            seat: Seat { setup_open: true, menu_index: 0, ..self.seat },
            selected: None,
            last_ai_move: None,
            ..self
        }
    }

    /// The table after `key`; see [`ChessControl::handle_key`].
    pub open spec fn after_key(self, key: Key, new: ChessControl) -> bool {
        let k = folded(key);
        if self.seat.setup_open {
            let (seat, common) = self.seat.after_key(k);
            match common {
                Common::Start => new.restarted(seat),
                _ => new == ChessControl { seat, ..self },
            }
        } else if k == Key::Char('q') {
            new == ChessControl { seat: Seat { quit: true, ..self.seat }, ..self }
        } else if k == Key::Char('m') {
            self.menu_opened(new)
        } else if self.seat.is_duel() {
            if k == Key::Esc {
                new == ChessControl { selected: None, ..self }
            } else if k == Key::Char('R') {
                new.restarted(self.seat)
            } else {
                new == self
            }
        } else if k == Key::Esc {
            if self.selected is Some {
                new == ChessControl { selected: None, ..self }
            } else {
                new == ChessControl { seat: Seat { quit: true, ..self.seat }, ..self }
            }
        } else if k == Key::Left || k == Key::Char('h') {
            new == ChessControl { cursor: clamped(self.cursor as int, 0, -1) as usize, ..self }
        } else if k == Key::Right || k == Key::Char('l') {
            new == ChessControl { cursor: clamped(self.cursor as int, 0, 1) as usize, ..self }
        } else if k == Key::Up || k == Key::Char('k') {
            new == ChessControl { cursor: clamped(self.cursor as int, -1, 0) as usize, ..self }
        } else if k == Key::Down || k == Key::Char('j') {
            new == ChessControl { cursor: clamped(self.cursor as int, 1, 0) as usize, ..self }
        } else if k == Key::Enter || k == Key::Char(' ') {
            if self.human_turn() {
                self.activated(self.cursor, new)
            } else {
                new == self
            }
        } else if k == Key::Char('r') || k == Key::Char('R') {
            new.restarted(self.seat)
        } else {
            new == self
        }
    }

    pub fn new() -> (c: Self)
        ensures
            c.wf(),
            c.restarted(Seat::new_spec()),
    {
        ChessControl {
            engine: Chess::new(),
            cursor: START_CURSOR,
            selected: None,
            seat: Seat::new(),
            ai_side: Side::Black,
            last_ai_move: None,
        }
    }

    fn reset(&mut self)
        requires
            old(self).seat.wf(),
        ensures
            final(self).wf(),
            final(self).restarted(old(self).seat),
    {
        self.engine = Chess::new();
        self.cursor = START_CURSOR;
        self.selected = None;
        self.last_ai_move = None;
        self.seat.quit = false;
        self.ai_side = Side::Black;
    }

    pub fn ai_to_move(&self) -> (r: bool)
        ensures
            r == self.ai_turn(),
    {
        let ongoing = match self.engine.status() {
            Status::Ongoing => true,
            _ => false,
        };
        self.seat.ai_to_move(ongoing, self.engine.turn() == self.ai_side)
    }

    pub fn human_can_act(&self) -> (r: bool)
        ensures
            r == self.human_turn(),
    {
        if self.seat.setup_open {
            return false;
        }
        match self.seat.opponent {
            Opponent::Human => true,
            Opponent::Ai(_) => self.engine.turn() != self.ai_side,
            Opponent::Battle(_) => false,
        }
    }

    fn own(&self, at: usize) -> (b: bool)
        requires
            at < 64,
        ensures
            b == own_at(self.engine@, at as int),
    {
        match self.engine.board()[at] {
            Some(pc) => pc.side == self.engine.turn(),
            None => false,
        }
    }

    /// Picks or moves at square `at`; see [`ChessControl::activated`].
    fn activate(&mut self, at: usize)
        requires
            old(self).wf(),
            at < 64,
        ensures
            final(self).wf(),
            old(self).activated(at, *final(self)),
    {
        self.cursor = at;
        match self.selected {
            None => {
                if self.own(at) {
                    self.selected = Some(at);
                }
            },
            Some(from) => {
                if self.engine.play(from, at) {
                    self.selected = None;
                } else if self.own(at) {
                    self.selected = Some(at);
                } else if at == from {
                    self.selected = None;
                }
            },
        }
    }

    fn move_cursor(&mut self, dr: i8, dc: i8)
        requires
            old(self).wf(),
            -1 <= dr <= 1,
            -1 <= dc <= 1,
        ensures
            final(self).wf(),
            *final(self) == (ChessControl { cursor: clamped(old(self).cursor as int, dr as int, dc as int) as usize, ..*old(self) }),
    {
        let mut r = (self.cursor / 8) as i8 + dr;
        let mut c = (self.cursor % 8) as i8 + dc;
        if r < 0 {
            r = 0;
        } else if r > 7 {
            r = 7;
        }
        if c < 0 {
            c = 0;
        } else if c > 7 {
            c = 7;
        }
        self.cursor = (r as usize) * 8 + c as usize;
    }

    /// Handles a key. In the picker the shared keys work (see
    /// [`Seat::after_key`]). On the board `q` quits and `m` opens the
    /// picker over the game; during a duel only `Esc` (dropping the pick)
    /// and `R` (restart) do anything more. Otherwise `Esc` drops the pick or
    /// quits when nothing is picked, the arrows and `h j k l` move the
    /// cursor, enter or space activate it when a human may act, and `r` or
    /// `R` restart; capital `Q` and `M` act as the small letters.
    pub fn handle_key(&mut self, key: Key)
        requires
            old(self).wf(),
        ensures
            final(self).wf(),
            old(self).after_key(key, *final(self)),
    {
        let k = fold(key);
        if self.seat.setup_open {
            match self.seat.key(k) {
                Common::Start => self.reset(),
                _ => {},
            }
            return;
        }
        if k == Key::Char('q') {
            self.seat.quit = true;
        } else if k == Key::Char('m') {
            self.seat.setup_open = true;
            self.seat.menu_index = 0;
            self.selected = None;
            self.last_ai_move = None;
        } else if self.seat.is_duel_now() {
            if k == Key::Esc {
                self.selected = None;
            } else if k == Key::Char('R') {
                self.reset();
            }
        } else if k == Key::Esc {
            if self.selected.is_some() {
                self.selected = None;
            } else {
                self.seat.quit = true;
            }
        } else if k == Key::Left || k == Key::Char('h') {
            self.move_cursor(0, -1);
        } else if k == Key::Right || k == Key::Char('l') {
            self.move_cursor(0, 1);
        } else if k == Key::Up || k == Key::Char('k') {
            self.move_cursor(-1, 0);
        } else if k == Key::Down || k == Key::Char('j') {
            self.move_cursor(1, 0);
        } else if k == Key::Enter || k == Key::Char(' ') {
            if self.human_can_act() {
                let at = self.cursor;
                self.activate(at);
            }
        } else if k == Key::Char('r') || k == Key::Char('R') {
            self.reset();
        }
    }

    /// A click on picker entry `index`: it is highlighted and confirmed.
    pub fn click_entry(&mut self, index: usize)
        requires
            old(self).wf(),
        ensures
            final(self).wf(),
            !old(self).seat.setup_open || index >= 7 ==> *final(self) == *old(self),
            old(self).seat.setup_open && index < 7 ==> (ChessControl {
                seat: Seat { menu_index: index, ..old(self).seat },
                ..*old(self)
            }).after_key(Key::Enter, *final(self)),
    {
        if !self.seat.setup_open || index >= 7 {
            return;
        }
        self.seat.menu_index = index;
        match self.seat.key(Key::Enter) {
            Common::Start => self.reset(),
            _ => {},
        }
    }

    /// A click on square `sq`: outside the picker and duels, when a human
    /// may act, the square is activated.
    pub fn click_square(&mut self, sq: usize)
        requires
            old(self).wf(),
        ensures
            final(self).wf(),
            if old(self).seat.is_duel() || !old(self).human_turn() || sq >= 64 {
                *final(self) == *old(self)
            } else {
                old(self).activated(sq, *final(self))
            },
    {
        if self.seat.is_duel_now() || !self.human_can_act() || sq >= 64 {
            return;
        }
        self.activate(sq);
    }

    /// The restart button: a fresh board, except during a duel.
    pub fn restart_button(&mut self)
        requires
            old(self).wf(),
        ensures
            final(self).wf(),
            old(self).seat.is_duel() ==> *final(self) == *old(self),
            !old(self).seat.is_duel() ==> final(self).restarted(old(self).seat),
    {
        if self.seat.is_duel_now() {
            return;
        }
        self.reset();
    }

    /// One computer move: the move the computer picks for the side to move.
    pub fn tick(&mut self)
        requires
            old(self).wf(),
        ensures
            final(self).wf(),
            final(self).cursor == old(self).cursor,
            final(self).selected == old(self).selected,
            final(self).seat == old(self).seat,
            final(self).ai_side == old(self).ai_side,
            !old(self).ai_turn() ==> *final(self) == *old(self),
            old(self).ai_turn() && !any_legal(old(self).engine@) ==> final(self).engine@ == old(self).engine@
                && final(self).last_ai_move == old(self).last_ai_move,
            old(self).ai_turn() && any_legal(old(self).engine@) ==> (final(self).last_ai_move matches Some(m)
                && legal_spec(old(self).engine@, m.0 as int, m.1 as int) && final(self).engine@ == refreshed(
                after_spec(old(self).engine@, m.0 as int, m.1 as int),
            )),
    {
        if !self.ai_to_move() {
            return;
        }
        let difficulty = match self.seat.difficulty() {
            Some(d) => d,
            None => return,
        };
        match ai::best_move(&self.engine, difficulty) {
            Some((from, to)) => {
                let ok = self.engine.play(from, to);
                assert(ok);
                self.last_ai_move = Some((from, to));
            },
            None => {},
        }
    }
}

} // verus!

//! What a checkers table does with keys, clicks and computer turns: the
//! picker, the square cursor, picking a piece and moving it.

use crate::checkers::ai;
use crate::checkers::engine::{Checkers, SIZE, Side, Status, start_square};
use crate::game_core::seat::{Common, Key, Opponent, Seat, digit_key, opponent_spec};
use vstd::prelude::*;

verus! {

/// Where the cursor starts: row 3, column 4.
pub const START_CURSOR: usize = 28;

/// A game of checkers with its table: the engine, the square cursor, the
/// picked piece, the seats, the side the computer plays and its last move.
pub struct CheckersControl {
    pub state: Checkers,
    pub cursor: usize,
    pub selected: Option<usize>,
    pub seat: Seat,
    pub ai_side: Side,
    pub last_ai_move: Option<(usize, usize)>,
}

/// The opening position, White to move.
pub open spec fn opening(g: Checkers) -> bool {
    &&& g.wf()
    &&& forall|sq: int| 0 <= sq < 64 ==> #[trigger] g.board_spec()[sq] == start_square(sq)
    &&& g.turn_spec() == Side::White
    &&& g.chain_spec() is None
    &&& g.last_move_spec() is None
    &&& g.status_spec() == Status::Ongoing
}

/// The cursor moved by `(dr, dc)` when that stays on the board.
pub open spec fn stepped(c: int, dr: int, dc: int) -> int {
    let (r, col) = (c / 8 + dr, c % 8 + dc);
    if 0 <= r < 8 && 0 <= col < 8 {
        r * 8 + col
    } else {
        c
    }
}

/// `sq` holds a piece of the side to move.
pub open spec fn own_piece(g: Checkers, sq: int) -> bool {
    g.board_spec()[sq] matches Some(pc) && pc.side == g.turn_spec()
}

/// Capital `Q` and `M` read as `q` and `m`.
pub open spec fn folded(key: Key) -> Key {
    if key == Key::Char('Q') {
        Key::Char('q')
    } else if key == Key::Char('M') {
        Key::Char('m')
    } else {
        key
    }
}

fn fold(key: Key) -> (k: Key)
    ensures
        k == folded(key),
{
    if key == Key::Char('Q') {
        Key::Char('q')
    } else if key == Key::Char('M') {
        Key::Char('m')
    } else {
        key
    }
}

impl CheckersControl {
    pub open spec fn wf(self) -> bool {
        &&& self.state.wf()
        &&& self.seat.wf()
        &&& self.cursor < 64
        &&& self.selected matches Some(s) ==> s < 64
    }

    /// A computer player owns the position.
    pub open spec fn ai_turn(self) -> bool {
        self.state.status_spec() is Ongoing && match self.seat.opponent {
            Opponent::Human => false,
            Opponent::Ai(_) => self.state.turn_spec() == self.ai_side,
            Opponent::Battle(_) => true,
        }
    }

    /// What activating the cursor does: move the picked piece to the cursor
    /// when that is legal (the chain piece stays picked while a jump chain
    /// goes on), or else pick the mover's piece under the cursor, where a
    /// running chain allows only its own piece.
    pub open spec fn activated(self, new: CheckersControl) -> bool {
        let g = self.state;
        let cur = self.cursor;
        &&& new.seat == self.seat
        &&& new.ai_side == self.ai_side
        &&& new.last_ai_move == self.last_ai_move
        &&& if self.selected matches Some(from) && from != cur && g.legal_targets_spec(from as int).contains(cur) {
            &&& g.moved(self.selected->0, cur, new.state)
            &&& new.selected == new.state.chain_spec()
            &&& new.cursor == match new.state.chain_spec() {
                Some(n) => n,
                None => cur,
            }
        } else {
            &&& new.state == g
            &&& new.cursor == cur
            &&& new.selected == if (g.chain_spec() is None || g.chain_spec() == Some(cur)) && own_piece(g, cur as int) {
                Some(cur)
            } else {
                self.selected
            }
        }
    }

    /// A fresh game behind the given seats, the cursor back at the start.
    pub open spec fn restarted(self, seat: Seat) -> bool {
        &&& opening(self.state)
        &&& self.cursor == START_CURSOR
        &&& self.selected is None
        &&& self.last_ai_move is None
        &&& self.seat == Seat { quit: false, ..seat }
        &&& self.ai_side == Side::Black
    }

    /// The shared keys, then the board keys (see [`CheckersControl::handle_key`]).
    pub open spec fn after_board_key(self, key: Key, new: CheckersControl) -> bool {
        let (seat, common) = self.seat.after_key(key);
        let o = CheckersControl { seat, ..self };
        match common {
            Common::Start | Common::Menu | Common::Restart => new.restarted(seat),
            Common::Done => new == o,
            Common::Board(k) => if k == Key::Esc {
                if o.state.chain_spec() is Some {
                    new == o
                } else if o.selected is Some {
                    new == CheckersControl { selected: None, ..o }
                } else {
                    new == CheckersControl { seat: Seat { quit: true, ..seat }, ..o }
                }
            } else if k == Key::Left || k == Key::Char('h') {
                new == CheckersControl { cursor: stepped(o.cursor as int, 0, -1) as usize, ..o }
            } else if k == Key::Right || k == Key::Char('l') {
                new == CheckersControl { cursor: stepped(o.cursor as int, 0, 1) as usize, ..o }
            } else if k == Key::Up || k == Key::Char('k') {
                new == CheckersControl { cursor: stepped(o.cursor as int, -1, 0) as usize, ..o }
            } else if k == Key::Down || k == Key::Char('j') {
                new == CheckersControl { cursor: stepped(o.cursor as int, 1, 0) as usize, ..o }
            } else if k == Key::Char('r') || k == Key::Char('R') {
                new.restarted(seat)
            } else if k == Key::Enter || k == Key::Char(' ') {
                if o.ai_turn() {
                    new == o
                } else {
                    o.activated(new)
                }
            } else {
                new == o
            },
        }
    }

    pub fn new() -> (c: Self)
        ensures
            c.wf(),
            c.restarted(Seat::new_spec()),
    {
        CheckersControl {
            state: Checkers::new(),
            cursor: START_CURSOR,
            selected: None,
            seat: Seat::new(),
            ai_side: Side::Black,
            last_ai_move: None,
        }
    }

    fn reset(&mut self)
        requires
            old(self).seat.wf(),
        ensures
            final(self).wf(),
            final(self).restarted(old(self).seat),
    {
        self.state = Checkers::new();
        self.cursor = START_CURSOR;
        self.selected = None;
        self.last_ai_move = None;
        self.seat.quit = false;
        self.ai_side = Side::Black;
    }

    pub fn ai_to_move(&self) -> (r: bool)
        ensures
            r == self.ai_turn(),
    {
        let ongoing = match self.state.status() {
            Status::Ongoing => true,
            _ => false,
        };
        if !ongoing {
            return false;
        }
        match self.seat.opponent {
            Opponent::Human => false,
            Opponent::Ai(_) => self.state.turn() == self.ai_side,
            Opponent::Battle(_) => true,
        }
    }

    fn move_cursor(&mut self, dr: i8, dc: i8)
        requires
            old(self).wf(),
            -1 <= dr <= 1,
            -1 <= dc <= 1,
        ensures
            final(self).wf(),
            *final(self) == (CheckersControl {
                cursor: stepped(old(self).cursor as int, dr as int, dc as int) as usize,
                ..*old(self)
            }),
    {
        let r = (self.cursor / SIZE) as i8 + dr;
        let c = (self.cursor % SIZE) as i8 + dc;
        if r >= 0 && r < 8 && c >= 0 && c < 8 {
            self.cursor = (r as usize) * SIZE + c as usize;
        }
    }

    /// Moves the picked piece or picks one; see [`CheckersControl::activated`].
    fn activate(&mut self)
        requires
            old(self).wf(),
        ensures
            final(self).wf(),
            old(self).activated(*final(self)),
    {
        let cur = self.cursor;
        if let Some(from) = self.selected {
            if from != cur {
                let targets = self.state.legal_targets(from);
                let mut listed = false;
                let mut k: usize = 0;
                while k < targets.len()
                    invariant
                        0 <= k <= targets@.len(),
                        listed == exists|j: int| 0 <= j < k && targets@[j] == cur,
                    decreases targets@.len() - k,
                {
                    if targets[k] == cur {
                        listed = true;
                    }
                    k += 1;
                }
                if listed {
                    let ok = self.state.play(from, cur);
                    assert(ok);
                    self.selected = self.state.chain_from();
                    match self.selected {
                        Some(next) => {
                            self.cursor = next;
                        },
                        None => {},
                    }
                    return;
                }
            }
        }
        let locked_ok = match self.state.chain_from() {
            Some(f) => f == cur,
            None => true,
        };
        let own = match self.state.piece_at(cur) {
            Some(pc) => pc.side == self.state.turn(),
            None => false,
        };
        if locked_ok && own {
            self.selected = Some(cur);
        }
    }

    /// Handles a key. Capital `Q` and `M` act as `q` and `m`, a digit in the
    /// picker starts its entry at once, and `Esc` during a duel drops the
    /// pick; otherwise the shared keys come first (see [`Seat::after_key`]);
    /// then `Esc` drops the pick (outside a jump chain) or quits when nothing
    /// is picked, the arrows and `h j k l` move the cursor, `r` and `R`
    /// restart, and, unless the computer is to move, enter or space activates
    /// the cursor.
    pub fn handle_key(&mut self, key: Key)
        requires
            old(self).wf(),
        ensures
            final(self).wf(),
            ({
                let key = folded(key);
                if old(self).seat.setup_open && digit_key(key) is Some {
                    final(self).restarted(Seat {
                        opponent: opponent_spec(digit_key(key)->0)->0,
                        setup_open: false,
                        ..old(self).seat
                    })
                } else if !old(self).seat.setup_open && old(self).seat.is_duel() && key == Key::Esc {
                    *final(self) == CheckersControl { selected: None, ..*old(self) }
                } else {
                    old(self).after_board_key(key, *final(self))
                }
            }),
    {
        let key = fold(key);
        if self.seat.setup_open {
            if let Key::Char(c) = key {
                if c >= '1' && c <= '7' {
                    let index = (c as u32 - 49) as usize;
                    self.seat.pick(index);
                    self.reset();
                    return;
                }
            }
        } else if self.seat.is_duel_now() && key == Key::Esc {
            self.selected = None;
            return;
        }
        let common = self.seat.key(key);
        match common {
            Common::Start | Common::Menu | Common::Restart => {
                self.reset();
            },
            Common::Done => {},
            Common::Board(k) => {
                if k == Key::Esc {
                    if self.state.chain_from().is_some() {
                    } else if self.selected.is_some() {
                        self.selected = None;
                    } else {
                        self.seat.quit = true;
                    }
                } else if k == Key::Left || k == Key::Char('h') {
                    self.move_cursor(0, -1);
                } else if k == Key::Right || k == Key::Char('l') {
                    self.move_cursor(0, 1);
                } else if k == Key::Up || k == Key::Char('k') {
                    self.move_cursor(-1, 0);
                } else if k == Key::Down || k == Key::Char('j') {
                    self.move_cursor(1, 0);
                } else if k == Key::Char('r') || k == Key::Char('R') {
                    self.reset();
                } else if k == Key::Enter || k == Key::Char(' ') {
                    if !self.ai_to_move() {
                        self.activate();
                    }
                }
            },
        }
    }

    /// The restart button: a fresh game, except while a duel runs.
    pub fn restart(&mut self)
        requires
            old(self).wf(),
        ensures
            final(self).wf(),
            old(self).seat.is_duel() ==> *final(self) == *old(self),
            !old(self).seat.is_duel() ==> final(self).restarted(old(self).seat),
    {
        if !self.seat.is_duel_now() {
            self.reset();
        }
    }

    /// A click on square `sq`: unless the picker is open, a duel runs or
    /// the computer is to move, the cursor goes there and is activated.
    pub fn click_square(&mut self, sq: usize)
        requires
            old(self).wf(),
        ensures
            final(self).wf(),
            if old(self).seat.setup_open || old(self).seat.is_duel() || old(self).ai_turn() || sq >= 64 {
                *final(self) == *old(self)
            } else {
                CheckersControl { cursor: sq, ..*old(self) }.activated(*final(self))
            },
    {
        if self.seat.setup_open || self.seat.is_duel_now() || self.ai_to_move() || sq >= 64 {
            return;
        }
        self.cursor = sq;
        self.activate();
    }

    /// One computer move (or one step of its jump chain).
    pub fn tick(&mut self)
        requires
            old(self).wf(),
        ensures
            final(self).wf(),
            final(self).cursor == old(self).cursor,
            final(self).selected == old(self).selected,
            final(self).seat == old(self).seat,
            final(self).ai_side == old(self).ai_side,
            !old(self).ai_turn() ==> *final(self) == *old(self),
            old(self).ai_turn() && !ai::has_legal_move(old(self).state) ==> *final(self) == *old(self),
            old(self).ai_turn() && ai::has_legal_move(old(self).state) ==> {
                &&& final(self).last_ai_move matches Some(m)
                &&& ai::is_legal_move(old(self).state, m)
                &&& old(self).state.moved(m.0, m.1, final(self).state)
            },
    {
        if !self.ai_to_move() {
            return;
        }
        let difficulty = match self.seat.difficulty() {
            Some(d) => d,
            None => return,
        };
        match ai::best_move(&self.state, difficulty) {
            Some((from, to)) => {
                let ok = self.state.play(from, to);
                assert(ok);
                self.last_ai_move = Some((from, to));
            },
            None => {},
        }
    }
}

} // verus!

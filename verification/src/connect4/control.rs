//! What a Connect Four table does with keys, clicks and computer turns:
//! the picker, the column cursor and dropping discs.

use crate::connect4::ai;
use crate::connect4::engine::{COLS, Connect4, Side, lemma_open_columns, open_columns_upto};
use crate::game_core::seat::{Common, Key, Opponent, Seat};
use vstd::prelude::*;

verus! {

/// Where the column cursor starts: the middle column.
pub const START_COLUMN: usize = 3;

/// A game of Connect Four with its table: the engine, the column cursor,
/// the seats, and the side the computer plays.
pub struct Connect4Control {
    pub engine: Connect4,
    pub cursor_col: usize,
    pub seat: Seat,
    pub ai_side: Side,
}

/// A disc of the mover dropped into `col`, or nothing when the column does
/// not take one (see [`Connect4::drop`]).
pub open spec fn dropped_or_kept(old: Connect4, col: int, new: Connect4) -> bool {
    if old.status_spec() is Ongoing && 0 <= col < COLS && old.heights()[col] < 6 {
        old.dropped(col as usize, new)
    } else {
        new == old
    }
}

impl Connect4Control {
    pub open spec fn wf(self) -> bool {
        &&& self.engine.wf()
        &&& self.seat.wf()
        &&& self.cursor_col < COLS
    }

    /// A computer player owns the position.
    pub open spec fn ai_turn(self) -> bool {
        !self.seat.setup_open && self.engine.status_spec() is Ongoing && match self.seat.opponent {
            Opponent::Human => false,
            Opponent::Ai(_) => self.engine.turn_spec() == self.ai_side,
            Opponent::Battle(_) => true,
        }
    }

    /// A fresh grid behind the given seats, the cursor in the middle; the
    /// computer plays White, so the human opens.
    pub open spec fn restarted(self, seat: Seat) -> bool {
        &&& self.engine.fresh()
        &&& self.cursor_col == START_COLUMN
        &&& self.seat == Seat { quit: false, ..seat }
        &&& self.ai_side == Side::White
    }

    /// The table after `key`; see [`Connect4Control::handle_key`].
    pub open spec fn after_key(self, key: Key, new: Connect4Control) -> bool {
        let (seat, common) = self.seat.after_key(key);
        let o = Connect4Control { seat, ..self };
        match common {
            Common::Start | Common::Menu | Common::Restart => new.restarted(seat),
            Common::Done => new == o,
            Common::Board(k) => if k == Key::Left || k == Key::Char('h') {
                new == Connect4Control {
                    cursor_col: if o.cursor_col == 0 {
                        0
                    } else {
                        (o.cursor_col - 1) as usize
                    },
                    ..o
                }
            } else if k == Key::Right || k == Key::Char('l') {
                new == Connect4Control {
                    cursor_col: if o.cursor_col + 1 >= COLS {
                        o.cursor_col
                    } else {
                        (o.cursor_col + 1) as usize
                    },
                    ..o
                }
            } else if k == Key::Down || k == Key::Enter || k == Key::Char(' ') {
                if o.ai_turn() {
                    new == o
                } else {
                    &&& new.cursor_col == o.cursor_col
                    &&& new.seat == seat
                    &&& new.ai_side == o.ai_side
                    &&& dropped_or_kept(o.engine, o.cursor_col as int, new.engine)
                }
            } else if k == Key::Char('R') {
                new.restarted(seat)
            } else {
                new == o
            },
        }
    }

    pub fn new() -> (c: Self)
        ensures
            c.wf(),
            c.restarted(Seat::new_spec()),
    {
        Connect4Control { engine: Connect4::new(), cursor_col: START_COLUMN, seat: Seat::new(), ai_side: Side::White }
    }

    fn reset(&mut self)
        requires
            old(self).seat.wf(),
        ensures
            final(self).wf(),
            final(self).restarted(old(self).seat),
    {
        self.engine = Connect4::new();
        self.cursor_col = START_COLUMN;
        self.seat.quit = false;
        self.ai_side = Side::White;
    }

    pub fn ai_to_move(&self) -> (r: bool)
        ensures
            r == self.ai_turn(),
    {
        self.seat.ai_to_move(self.engine.status().is_ongoing(), self.engine.turn() == self.ai_side)
    }

    /// Handles a key: the shared keys first (see [`Seat::after_key`]), then
    /// left and right move the column cursor, down, enter or space drop a
    /// disc there unless the computer is to move, and `R` restarts.
    pub fn handle_key(&mut self, key: Key)
        requires
            old(self).wf(),
        ensures
            final(self).wf(),
            old(self).after_key(key, *final(self)),
    {
        let common = self.seat.key(key);
        match common {
            Common::Start | Common::Menu | Common::Restart => {
                self.reset();
            },
            Common::Done => {},
            Common::Board(k) => {
                if k == Key::Left || k == Key::Char('h') {
                    if self.cursor_col > 0 {
                        self.cursor_col = self.cursor_col - 1;
                    }
                } else if k == Key::Right || k == Key::Char('l') {
                    if self.cursor_col + 1 < COLS {
                        self.cursor_col = self.cursor_col + 1;
                    }
                } else if k == Key::Down || k == Key::Enter || k == Key::Char(' ') {
                    if !self.ai_to_move() {
                        let col = self.cursor_col;
                        let _ = self.engine.drop(col);
                    }
                } else if k == Key::Char('R') {
                    self.reset();
                }
            },
        }
    }

    /// A click on column `col`: unless the picker is open, a duel runs or
    /// the computer is to move, the cursor goes there and a disc drops.
    pub fn click_column(&mut self, col: usize)
        requires
            old(self).wf(),
        ensures
            final(self).wf(),
            if old(self).seat.setup_open || old(self).seat.is_duel() || old(self).ai_turn() || col >= COLS {
                *final(self) == *old(self)
            } else {
                &&& final(self).cursor_col == col
                &&& final(self).seat == old(self).seat
                &&& final(self).ai_side == old(self).ai_side
                &&& dropped_or_kept(old(self).engine, col as int, final(self).engine)
            },
    {
        if self.seat.setup_open || self.seat.is_duel_now() || self.ai_to_move() || col >= COLS {
            return;
        }
        self.cursor_col = col;
        let _ = self.engine.drop(col);
    }

    /// The restart button: a fresh grid, except while a duel runs.
    pub fn restart(&mut self)
        requires
            old(self).wf(),
        ensures
            final(self).wf(),
            old(self).seat.is_duel() ==> *final(self) == *old(self),
            !old(self).seat.is_duel() ==> final(self).restarted(old(self).seat),
    {
        if !self.seat.is_duel_now() {
            self.reset();
        }
    }

    /// One computer move: a disc in the column the computer picks.
    pub fn tick(&mut self)
        requires
            old(self).wf(),
        ensures
            final(self).wf(),
            final(self).cursor_col == old(self).cursor_col,
            final(self).seat == old(self).seat,
            final(self).ai_side == old(self).ai_side,
            !old(self).ai_turn() ==> final(self).engine == old(self).engine,
            old(self).ai_turn() ==> ({
                let open = open_columns_upto(old(self).engine.heights(), COLS as int);
                &&& open.len() == 0 ==> final(self).engine == old(self).engine
                &&& open.len() > 0 ==> exists|c: usize|
                    #![trigger open.contains(c)]
                    open.contains(c) && old(self).engine.dropped(c, final(self).engine)
            }),
    {
        if !self.ai_to_move() {
            return;
        }
        let difficulty = match self.seat.difficulty() {
            Some(d) => d,
            None => return,
        };
        match ai::best_move(&self.engine, difficulty) {
            Some(col) => {
                proof {
                    self.engine.lemma_wf_len();
                    lemma_open_columns(self.engine.heights(), COLS as int);
                }
                let ghost g0 = self.engine;
                let ok = self.engine.drop(col);
                assert(ok);
                assert(open_columns_upto(g0.heights(), COLS as int).contains(col));
            },
            None => {},
        }
    }
}

} // verus!

//! What a battleship table does with keys, clicks and computer turns: the
//! picker, the cell cursor on the enemy waters, firing, and saving.

use crate::battleship::ai::{self, MAX_SHIPS, seen_as};
use crate::battleship::engine::{Battleship, CELLS, CellView, GRID, Side, Status, fresh_fleet, opposite_of};
use crate::battleship::snapshot::{encode, save_of_text, save_text};
use crate::game_core::seat::{Common, Key, Opponent, Seat};
use vstd::prelude::*;

verus! {

/// A game of battleship with its table: the engine, the cell cursor, the
/// seats, and the side the computer plays.
pub struct BattleshipControl {
    pub engine: Battleship,
    pub cursor: usize,
    pub seat: Seat,
    pub ai_side: Side,
}

/// A shot at `cell` as [`Battleship::fire`] makes it; nothing happens once
/// the game is over or when the cell was already fired at.
pub open spec fn fire_result(g: Battleship, cell: int, new: Battleship) -> bool {
    if g.status_spec() is Ongoing && 0 <= cell < 100 && !g.incoming_of(opposite_of(g.turn_spec()))[cell] {
        g.fired(cell as usize, new)
    } else {
        new == g
    }
}

impl BattleshipControl {
    pub open spec fn wf(self) -> bool {
        &&& self.engine.wf()
        &&& self.seat.wf()
        &&& self.cursor < CELLS
    }

    /// A computer player owns the position.
    pub open spec fn ai_turn(self) -> bool {
        !self.seat.setup_open && self.engine.status_spec() is Ongoing && match self.seat.opponent {
            Opponent::Human => false,
            Opponent::Ai(_) => self.engine.turn_spec() == self.ai_side,
            Opponent::Battle(_) => true,
        }
    }

    /// Two fresh fleets behind the given seats, the cursor on the first cell.
    pub open spec fn restarted(self, seat: Seat) -> bool {
        &&& self.engine.wf()
        &&& fresh_fleet(self.engine.ships_of(Side::White), self.engine.incoming_of(Side::White))
        &&& fresh_fleet(self.engine.ships_of(Side::Black), self.engine.incoming_of(Side::Black))
        &&& self.engine.turn_spec() == Side::White
        &&& self.engine.status_spec() == Status::Ongoing
        &&& self.engine.last_shot_spec() is None
        &&& self.cursor == 0
        &&& self.seat == Seat { quit: false, ..seat }
        &&& self.ai_side == Side::Black
    }

    /// The table after `key`; see [`BattleshipControl::handle_key`].
    pub open spec fn after_key(self, key: Key, new: BattleshipControl) -> bool {
        let (seat, common) = self.seat.after_key(key);
        let o = BattleshipControl { seat, ..self };
        match common {
            Common::Start | Common::Menu | Common::Restart => new.restarted(seat),
            Common::Done => new == o,
            Common::Board(k) => if o.ai_turn() {
                new == o
            } else if k == Key::Left || k == Key::Char('h') {
                new == BattleshipControl { cursor: ((o.cursor + 99) % 100) as usize, ..o }
            } else if k == Key::Right || k == Key::Char('l') {
                new == BattleshipControl { cursor: ((o.cursor + 1) % 100) as usize, ..o }
            } else if k == Key::Up || k == Key::Char('k') {
                new == BattleshipControl { cursor: ((o.cursor + 90) % 100) as usize, ..o }
            } else if k == Key::Down || k == Key::Char('j') {
                new == BattleshipControl { cursor: ((o.cursor + 10) % 100) as usize, ..o }
            } else if k == Key::Enter || k == Key::Char(' ') {
                new == BattleshipControl { engine: new.engine, ..o } && fire_result(
                    o.engine,
                    o.cursor as int,
                    new.engine,
                )
            } else if k == Key::Char('R') {
                new.restarted(seat)
            } else {
                new == o
            },
        }
    }

    pub fn new() -> (c: Self)
        ensures
            c.wf(),
            c.restarted(Seat::new_spec()),
    {
        BattleshipControl { engine: Battleship::default(), cursor: 0, seat: Seat::new(), ai_side: Side::Black }
    }

    fn reset(&mut self)
        requires
            old(self).seat.wf(),
        ensures
            final(self).wf(),
            final(self).restarted(old(self).seat),
    {
        self.engine = Battleship::default();
        self.cursor = 0;
        self.seat.quit = false;
        self.ai_side = Side::Black;
    }

    pub fn ai_to_move(&self) -> (r: bool)
        ensures
            r == self.ai_turn(),
    {
        let ongoing = match self.engine.status() {
            Status::Ongoing => true,
            _ => false,
        };
        self.seat.ai_to_move(ongoing, self.engine.turn() == self.ai_side)
    }

    /// Handles a key: the shared keys first (see [`Seat::after_key`]), then,
    /// unless the computer is to move, the arrows and `h j k l` move the
    /// cursor round the hundred cells (wrapping), enter or space fire at
    /// it, and `R` restarts.
    pub fn handle_key(&mut self, key: Key)
        requires
            old(self).wf(),
        ensures
            final(self).wf(),
            old(self).after_key(key, *final(self)),
    {
        let common = self.seat.key(key);
        match common {
            Common::Start | Common::Menu | Common::Restart => {
                self.reset();
            },
            Common::Done => {},
            Common::Board(k) => {
                if self.ai_to_move() {
                    return;
                }
                if k == Key::Left || k == Key::Char('h') {
                    self.cursor = (self.cursor + CELLS - 1) % CELLS;
                } else if k == Key::Right || k == Key::Char('l') {
                    self.cursor = (self.cursor + 1) % CELLS;
                } else if k == Key::Up || k == Key::Char('k') {
                    self.cursor = (self.cursor + CELLS - GRID) % CELLS;
                } else if k == Key::Down || k == Key::Char('j') {
                    self.cursor = (self.cursor + GRID) % CELLS;
                } else if k == Key::Enter || k == Key::Char(' ') {
                    let at = self.cursor;
                    let _ = self.engine.fire(at);
                } else if k == Key::Char('R') {
                    self.reset();
                }
            },
        }
    }

    /// A click on enemy cell `cell`: unless the picker is open, a duel runs
    /// or the computer is to move, the cursor goes there and fires.
    pub fn click_cell(&mut self, cell: usize)
        requires
            old(self).wf(),
        ensures
            final(self).wf(),
            if old(self).seat.setup_open || old(self).seat.is_duel() || old(self).ai_turn() || cell >= CELLS {
                *final(self) == *old(self)
            } else {
                &&& *final(self) == (BattleshipControl { engine: final(self).engine, cursor: cell, ..*old(self) })
                &&& fire_result(old(self).engine, cell as int, final(self).engine)
            },
    {
        if self.seat.setup_open || self.seat.is_duel_now() || self.ai_to_move() || cell >= CELLS {
            return;
        }
        self.cursor = cell;
        let _ = self.engine.fire(cell);
    }

    /// The restart button: fresh fleets, except while the picker is open, a
    /// duel runs or the computer is to move.
    pub fn restart_button(&mut self)
        requires
            old(self).wf(),
        ensures
            final(self).wf(),
            old(self).seat.setup_open || old(self).seat.is_duel() || old(self).ai_turn() ==> *final(self)
                == *old(self),
            !(old(self).seat.setup_open || old(self).seat.is_duel() || old(self).ai_turn())
                ==> final(self).restarted(old(self).seat),
    {
        if self.seat.setup_open || self.seat.is_duel_now() || self.ai_to_move() {
            return;
        }
        self.reset();
    }

    /// One computer salvo: a shot at a cell it has not tried. A fleet too
    /// large for the search leaves the computer idle.
    pub fn tick(&mut self)
        requires
            old(self).wf(),
        ensures
            final(self).wf(),
            final(self).cursor == old(self).cursor,
            final(self).seat == old(self).seat,
            final(self).ai_side == old(self).ai_side,
            !(old(self).ai_turn() && old(self).engine.ships_of(old(self).engine.turn_spec()).len() <= MAX_SHIPS)
                ==> final(self).engine == old(self).engine,
            old(self).ai_turn() && old(self).engine.ships_of(old(self).engine.turn_spec()).len() <= MAX_SHIPS
                ==> if exists|c: int| 0 <= c < 100 && #[trigger] seen_as(old(self).engine, c) == CellView::Unknown {
                exists|c: usize|
                    c < 100 && seen_as(old(self).engine, c as int) == CellView::Unknown && #[trigger] old(
                        self,
                    ).engine.fired(c, final(self).engine)
            } else {
                final(self).engine == old(self).engine
            },
    {
        if !self.ai_to_move() {
            return;
        }
        let difficulty = match self.seat.difficulty() {
            Some(d) => d,
            None => return,
        };
        if self.engine.ship_count(self.engine.turn()) > MAX_SHIPS {
            return;
        }
        match ai::best_shot(&self.engine, difficulty) {
            Some(cell) => {
                let ghost g0 = self.engine;
                let r = self.engine.fire(cell);
                assert(r is Some);
                assert(g0.fired(cell, self.engine));
            },
            None => {},
        }
    }

    /// The position as snapshot text (see [`encode`]); nothing while the
    /// picker is open.
    pub fn snapshot(&self) -> (r: Option<Vec<u8>>)
        requires
            self.wf(),
        ensures
            self.seat.setup_open ==> r is None,
            !self.seat.setup_open ==> (r matches Some(b) && b@ == save_text(
                self.engine.turn_spec(),
                self.engine.ships_of(Side::White),
                self.engine.incoming_of(Side::White),
                self.engine.ships_of(Side::Black),
                self.engine.incoming_of(Side::Black),
            )),
    {
        if self.seat.setup_open {
            None
        } else {
            Some(encode(&self.engine))
        }
    }

    /// Takes up a saved position (see [`Battleship::restore_snapshot`]) and
    /// closes the picker; a refused blob changes nothing.
    pub fn restore(&mut self, blob: &[u8]) -> (ok: bool)
        requires
            old(self).wf(),
        ensures
            final(self).wf(),
            ok == save_of_text(blob@) is Some,
            !ok ==> *final(self) == *old(self),
            ok ==> final(self).seat == (Seat { setup_open: false, ..old(self).seat }),
            ok ==> final(self).cursor == old(self).cursor,
            ok ==> final(self).ai_side == old(self).ai_side,
            ok ==> ({
                let v = save_of_text(blob@)->0;
                &&& final(self).engine.turn_spec() == v.0
                &&& final(self).engine.incoming_of(Side::White) == v.2
                &&& final(self).engine.incoming_of(Side::Black) == v.4
            }),
    {
        if !self.engine.restore_snapshot(blob) {
            return false;
        }
        self.seat.setup_open = false;
        true
    }
}

} // verus!

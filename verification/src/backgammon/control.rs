//! What a backgammon table does with keys, clicks and computer turns: the
//! picker, the slot cursor, rolling, picking a source and moving it.

use crate::backgammon::ai::{self, has_move};
use crate::backgammon::engine::{Backgammon, BAR, Dest, OFF, Phase, Side, movable_upto, start_point};
use crate::game_core::seat::{Common, Key, Opponent, Seat};
use vstd::prelude::*;

verus! {

/// Where the cursor starts: the last point.
pub const START_CURSOR: usize = 23;

/// A game of backgammon with its table: the engine, the slot cursor
/// (points `0..24`, then [`BAR`] and [`OFF`]), the picked source, the seats,
/// and the side the computer plays.
pub struct BackgammonControl {
    pub engine: Backgammon,
    pub cursor: usize,
    pub selected: Option<usize>,
    pub seat: Seat,
    pub ai_side: Side,
}

/// The destination a cursor slot stands for (the bar is none).
pub open spec fn slot_dest_spec(c: int) -> Option<Dest> {
    if c == OFF {
        Some(Dest::Off)
    } else if 0 <= c < 24 {
        Some(Dest::Point(c as usize))
    } else {
        None
    }
}

fn slot_dest(c: usize) -> (r: Option<Dest>)
    ensures
        r == slot_dest_spec(c as int),
{
    if c == OFF {
        Some(Dest::Off)
    } else if c < 24 {
        Some(Dest::Point(c))
    } else {
        None
    }
}

/// A fresh game: the opening layout, Black to roll.
pub open spec fn opening(g: Backgammon) -> bool {
    &&& g.wf()
    &&& forall|i: int| 0 <= i < 24 ==> #[trigger] g.points_spec()[i] == start_point(i)
    &&& g.bar_spec() == (0u8, 0u8)
    &&& g.off_spec() == (0u8, 0u8)
    &&& g.turn_spec() == Side::Black
    &&& g.phase_spec() == Phase::Roll
    &&& g.dice_spec() == [1u8, 1u8]
    &&& g.left_spec().len() == 0
}

/// `new` is `old` after a roll of two dice from one to six.
pub open spec fn rolled_any(old: Backgammon, new: Backgammon) -> bool {
    &&& 1 <= new.dice_spec()[0] <= 6
    &&& 1 <= new.dice_spec()[1] <= 6
    &&& old.rolled(new.dice_spec()[0], new.dice_spec()[1], new)
}

/// The move that activating the cursor commits: the picked source to the
/// slot under the cursor, when that move is accepted.
pub open spec fn commit(c: BackgammonControl) -> Option<(usize, Dest)> {
    match c.selected {
        Some(src) => if src != c.cursor && slot_dest_spec(c.cursor as int) is Some && c.engine.accepts(
            src as int,
            slot_dest_spec(c.cursor as int)->0,
        ) {
            Some((src, slot_dest_spec(c.cursor as int)->0))
        } else {
            None
        },
        None => None,
    }
}

/// The cursor one slot to the left (from the first point to [`OFF`]).
pub open spec fn left_of(c: int) -> int {
    if c == 0 {
        OFF as int
    } else {
        c - 1
    }
}

pub open spec fn right_of(c: int) -> int {
    if c == OFF {
        0
    } else {
        c + 1
    }
}

/// The cursor moved by `d`, kept within `0..=OFF`.
pub open spec fn shifted(c: int, d: int) -> int {
    if c + d < 0 {
        0
    } else if c + d > OFF {
        OFF as int
    } else {
        c + d
    }
}

/// A key that moves the cursor or drops the pick.
pub open spec fn is_nav(k: Key) -> bool {
    k == Key::Esc || k == Key::Left || k == Key::Char('h') || k == Key::Right || k == Key::Char('l')
        || k == Key::Up || k == Key::Char('k') || k == Key::Down || k == Key::Char('j')
}

impl BackgammonControl {
    /// The table after a cursor key: left and right step one slot with
    /// wrap-around, up and down jump twelve, `Esc` drops the pick.
    pub open spec fn navigated(self, k: Key) -> BackgammonControl {
        if k == Key::Esc {
            BackgammonControl { selected: None, ..self }
        } else if k == Key::Left || k == Key::Char('h') {
            BackgammonControl { cursor: left_of(self.cursor as int) as usize, ..self }
        } else if k == Key::Right || k == Key::Char('l') {
            BackgammonControl { cursor: right_of(self.cursor as int) as usize, ..self }
        } else if k == Key::Up || k == Key::Char('k') {
            BackgammonControl { cursor: shifted(self.cursor as int, -12) as usize, ..self }
        } else if k == Key::Down || k == Key::Char('j') {
            BackgammonControl { cursor: shifted(self.cursor as int, 12) as usize, ..self }
        } else {
            self
        }
    }

    pub open spec fn wf(self) -> bool {
        &&& self.engine.wf()
        &&& self.seat.wf()
        &&& self.cursor <= OFF
    }

    /// A computer player owns the position.
    pub open spec fn ai_turn(self) -> bool {
        !self.seat.setup_open && self.engine.phase_spec() != Phase::GameOver && match self.seat.opponent {
            Opponent::Human => false,
            Opponent::Ai(_) => self.engine.turn_spec() == self.ai_side,
            Opponent::Battle(_) => true,
        }
    }

    /// What activating the cursor does: roll when a roll is due; during a
    /// move, play the committed move, or else pick the source under the
    /// cursor when it is movable.
    pub open spec fn activated(self, new: BackgammonControl) -> bool {
        let g = self.engine;
        &&& new.cursor == self.cursor
        &&& new.seat == self.seat
        &&& new.ai_side == self.ai_side
        &&& match g.phase_spec() {
            Phase::Roll => new.selected is None && rolled_any(g, new.engine),
            Phase::GameOver => new.engine == g && new.selected == self.selected,
            Phase::Move => match commit(self) {
                Some(m) => new.selected is None && g.moved(m.0 as int, m.1, new.engine),
                None => new.engine == g && new.selected == if movable_upto(
                    g.points_spec(),
                    g.bar_spec(),
                    g.turn_spec(),
                    g.left_spec(),
                    25,
                ).contains(self.cursor) {
                    Some(self.cursor)
                } else {
                    self.selected
                },
            },
        }
    }

    /// A fresh game behind the given seats, the cursor on the last point.
    pub open spec fn restarted(self, seat: Seat) -> bool {
        &&& opening(self.engine)
        &&& self.cursor == START_CURSOR
        &&& self.selected is None
        &&& self.seat == Seat { quit: false, ..seat }
        &&& self.ai_side == Side::Black
    }

    pub fn new() -> (c: Self)
        ensures
            c.wf(),
            c.restarted(Seat::new_spec()),
    {
        BackgammonControl {
            engine: Backgammon::new(),
            cursor: START_CURSOR,
            selected: None,
            seat: Seat::new(),
            ai_side: Side::Black,
        }
    }

    fn reset(&mut self)
        requires
            old(self).seat.wf(),
        ensures
            final(self).wf(),
            final(self).restarted(old(self).seat),
    {
        self.engine = Backgammon::new();
        self.cursor = START_CURSOR;
        self.selected = None;
        self.seat.quit = false;
        self.ai_side = Side::Black;
    }

    pub fn ai_to_move(&self) -> (r: bool)
        ensures
            r == self.ai_turn(),
    {
        self.seat.ai_to_move(self.engine.phase() != Phase::GameOver, self.engine.turn() == self.ai_side)
    }

    /// The move activating the cursor would commit; see [`commit`].
    fn commit_move(&self) -> (r: Option<(usize, Dest)>)
        requires
            self.wf(),
        ensures
            r == commit(*self),
    {
        let src = match self.selected {
            Some(src) => src,
            None => return None,
        };
        if src == self.cursor {
            return None;
        }
        let dest = match slot_dest(self.cursor) {
            Some(d) => d,
            None => return None,
        };
        let dests = self.engine.destinations(src);
        let mut k: usize = 0;
        while k < dests.len()
            invariant
                0 <= k <= dests@.len(),
                dests@ == self.engine.destinations_spec(src as int),
                forall|j: int| 0 <= j < k ==> #[trigger] dests@[j].0 != dest,
                self.selected == Some(src),
                src != self.cursor,
                slot_dest_spec(self.cursor as int) == Some(dest),
            decreases dests@.len() - k,
        {
            if dests[k].0 == dest {
                proof {
                    assert(self.engine.destinations_spec(src as int)[k as int].0 == dest);
                    assert(self.engine.destinations_spec(src as int).len() > 0);
                    assert(self.engine.accepts(src as int, dest));
                }
                return Some((src, dest));
            }
            k += 1;
        }
        None
    }

    /// Whether the cursor is on a source the mover can move from.
    fn cursor_movable(&self) -> (b: bool)
        requires
            self.wf(),
            self.engine.phase_spec() == Phase::Move,
        ensures
            b == movable_upto(
                self.engine.points_spec(),
                self.engine.bar_spec(),
                self.engine.turn_spec(),
                self.engine.left_spec(),
                25,
            ).contains(self.cursor),
    {
        let movable = self.engine.movable();
        let mut k: usize = 0;
        while k < movable.len()
            invariant
                0 <= k <= movable@.len(),
                forall|j: int| 0 <= j < k ==> movable@[j] != self.cursor,
                movable@ == movable_upto(
                    self.engine.points_spec(),
                    self.engine.bar_spec(),
                    self.engine.turn_spec(),
                    self.engine.left_spec(),
                    25,
                ),
            decreases movable@.len() - k,
        {
            if movable[k] == self.cursor {
                assert(movable@[k as int] == self.cursor);
                return true;
            }
            k += 1;
        }
        false
    }

    /// Rolls, plays or picks at the cursor; see [`BackgammonControl::activated`].
    pub fn activate(&mut self)
        requires
            old(self).wf(),
        ensures
            final(self).wf(),
            old(self).activated(*final(self)),
    {
        match self.engine.phase() {
            Phase::Roll => {
                self.selected = None;
                let _ = self.engine.roll();
            },
            Phase::Move => {
                match self.commit_move() {
                    Some((src, dest)) => {
                        let _ = self.engine.move_checker(src, dest);
                        self.selected = None;
                    },
                    None => {
                        if self.cursor_movable() {
                            self.selected = Some(self.cursor);
                        }
                    },
                }
            },
            Phase::GameOver => {},
        }
    }

    fn navigate(&mut self, k: Key)
        requires
            old(self).wf(),
        ensures
            final(self).wf(),
            *final(self) == old(self).navigated(k),
    {
        if k == Key::Esc {
            self.selected = None;
        } else if k == Key::Left || k == Key::Char('h') {
            self.cursor = if self.cursor == 0 {
                OFF
            } else {
                self.cursor - 1
            };
        } else if k == Key::Right || k == Key::Char('l') {
            self.cursor = if self.cursor == OFF {
                0
            } else {
                self.cursor + 1
            };
        } else if k == Key::Up || k == Key::Char('k') {
            self.cursor = if self.cursor < 12 {
                0
            } else {
                self.cursor - 12
            };
        } else if k == Key::Down || k == Key::Char('j') {
            self.cursor = if self.cursor + 12 > OFF {
                OFF
            } else {
                self.cursor + 12
            };
        }
    }

    /// Handles a key. Off the picker the cursor keys always work (see
    /// [`BackgammonControl::navigated`]), during a duel too; otherwise the
    /// shared keys come first (see [`Seat::after_key`]), then, unless the
    /// computer is to move, enter or space activates the cursor, `r` rolls
    /// and `R` restarts.
    pub fn handle_key(&mut self, key: Key)
        requires
            old(self).wf(),
        ensures
            final(self).wf(),
            ({
                let (seat, common) = old(self).seat.after_key(key);
                let busy = old(self).ai_turn();
                let o = BackgammonControl { seat, ..*old(self) };
                if !old(self).seat.setup_open && old(self).seat.is_duel() && is_nav(key) {
                    *final(self) == old(self).navigated(key)
                } else {
                    match common {
                        Common::Start | Common::Menu | Common::Restart => final(self).restarted(seat),
                        Common::Done => *final(self) == o,
                        Common::Board(k) => if is_nav(k) {
                            *final(self) == o.navigated(k)
                        } else if busy {
                            *final(self) == o
                        } else if k == Key::Enter || k == Key::Char(' ') {
                            o.activated(*final(self))
                        } else if k == Key::Char('r') && o.engine.phase_spec() == Phase::Roll {
                            &&& final(self).selected is None
                            &&& final(self).cursor == o.cursor
                            &&& final(self).seat == seat
                            &&& final(self).ai_side == o.ai_side
                            &&& rolled_any(o.engine, final(self).engine)
                        } else if k == Key::Char('R') {
                            final(self).restarted(seat)
                        } else {
                            *final(self) == o
                        },
                    }
                }
            }),
    {
        if !self.seat.setup_open && self.seat.is_duel_now() && (key == Key::Esc || key == Key::Left
            || key == Key::Char('h') || key == Key::Right || key == Key::Char('l') || key == Key::Up
            || key == Key::Char('k') || key == Key::Down || key == Key::Char('j')) {
            self.navigate(key);
            return;
        }
        let busy = self.ai_to_move();
        let common = self.seat.key(key);
        match common {
            Common::Start | Common::Menu | Common::Restart => {
                self.reset();
            },
            Common::Done => {},
            Common::Board(k) => {
                if k == Key::Esc || k == Key::Left || k == Key::Char('h') || k == Key::Right || k
                    == Key::Char('l') || k == Key::Up || k == Key::Char('k') || k == Key::Down || k
                    == Key::Char('j') {
                    self.navigate(k);
                } else if busy {
                } else if k == Key::Enter || k == Key::Char(' ') {
                    self.activate();
                } else if k == Key::Char('r') && self.engine.phase() == Phase::Roll {
                    self.selected = None;
                    let _ = self.engine.roll();
                } else if k == Key::Char('R') {
                    self.reset();
                }
            },
        }
    }

    /// The roll button: unless the computer is to move, drops the pick and
    /// rolls when a roll is due.
    pub fn roll_button(&mut self)
        requires
            old(self).wf(),
        ensures
            final(self).wf(),
            final(self).cursor == old(self).cursor,
            final(self).seat == old(self).seat,
            final(self).ai_side == old(self).ai_side,
            old(self).seat.setup_open || old(self).ai_turn() ==> *final(self) == *old(self),
            !(old(self).seat.setup_open || old(self).ai_turn()) ==> {
                &&& final(self).selected is None
                &&& old(self).engine.phase_spec() == Phase::Roll ==> rolled_any(old(self).engine, final(self).engine)
                &&& old(self).engine.phase_spec() != Phase::Roll ==> final(self).engine == old(self).engine
            },
    {
        if self.seat.setup_open || self.ai_to_move() {
            return;
        }
        self.selected = None;
        if self.engine.phase() == Phase::Roll {
            let _ = self.engine.roll();
        }
    }

    /// The restart button: a fresh game, unless the computer is to move.
    pub fn restart_button(&mut self)
        requires
            old(self).wf(),
        ensures
            final(self).wf(),
            old(self).seat.setup_open || old(self).ai_turn() ==> *final(self) == *old(self),
            !(old(self).seat.setup_open || old(self).ai_turn()) ==> final(self).restarted(old(self).seat),
    {
        if self.seat.setup_open || self.ai_to_move() {
            return;
        }
        self.reset();
    }

    /// A click on slot `slot`: unless the computer is to move (or the
    /// picker is open), the cursor goes there and is activated.
    pub fn click_slot(&mut self, slot: usize)
        requires
            old(self).wf(),
        ensures
            final(self).wf(),
            if old(self).seat.setup_open || old(self).ai_turn() || slot > OFF {
                *final(self) == *old(self)
            } else {
                BackgammonControl { cursor: slot, ..*old(self) }.activated(*final(self))
            },
    {
        if self.seat.setup_open || self.ai_to_move() || slot > OFF {
            return;
        }
        self.cursor = slot;
        self.activate();
    }

    /// One computer action per call: roll when a roll is due, otherwise the
    /// move the computer picks.
    pub fn tick(&mut self)
        requires
            old(self).wf(),
        ensures
            final(self).wf(),
            final(self).cursor == old(self).cursor,
            final(self).selected == old(self).selected,
            final(self).seat == old(self).seat,
            final(self).ai_side == old(self).ai_side,
            !old(self).ai_turn() ==> final(self).engine == old(self).engine,
            old(self).ai_turn() && old(self).engine.phase_spec() == Phase::Roll ==> rolled_any(
                old(self).engine,
                final(self).engine,
            ),
            old(self).ai_turn() && old(self).engine.phase_spec() == Phase::Move ==> if has_move(
                old(self).engine,
            ) {
                exists|f: int, d: Dest|
                    old(self).engine.accepts(f, d) && #[trigger] old(self).engine.moved(f, d, final(self).engine)
            } else {
                final(self).engine == old(self).engine
            },
    {
        if !self.ai_to_move() {
            return;
        }
        let difficulty = match self.seat.difficulty() {
            Some(d) => d,
            None => return,
        };
        match self.engine.phase() {
            Phase::Roll => {
                let _ = self.engine.roll();
            },
            Phase::Move => {
                match ai::step(&self.engine, difficulty) {
                    Some((src, dest)) => {
                        let ghost g0 = self.engine;
                        let r = self.engine.move_checker(src, dest);
                        assert(g0.moved(src as int, dest, self.engine));
                    },
                    None => {},
                }
            },
            Phase::GameOver => {},
        }
    }
}

} // verus!

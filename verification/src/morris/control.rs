//! What a nine men's morris table does with keys, clicks and computer
//! turns: the picker, the point cursor, placing, moving and capturing.

use crate::game_core::seat::{Common, Key, Opponent, Seat};
use crate::morris::ai::{self, offered};
use crate::morris::engine::{Action, Morris, POINTS, Side, Status, action_result, move_result, place_result, remove_result};
use vstd::prelude::*;

verus! {

/// Where the cursor starts: a junction on the middle ring.
pub const START_CURSOR: usize = 4;

/// A game of morris with its table: the engine, the point cursor, the
/// picked-up stone, the seats, and the side the computer plays.
pub struct MorrisControl {
    pub state: Morris,
    pub cursor: usize,
    pub selected: Option<usize>,
    pub seat: Seat,
    pub ai_side: Side,
}

/// The point `at` holds a stone of the side to move.
pub open spec fn own_at(g: Morris, at: int) -> bool {
    g.board_spec()[at] == Some(g.turn_spec())
}

impl MorrisControl {
    pub open spec fn wf(self) -> bool {
        &&& self.state.wf()
        &&& self.seat.wf()
        &&& self.cursor < POINTS
    }

    /// A computer player owns the position (its captures included).
    pub open spec fn ai_turn(self) -> bool {
        !self.seat.setup_open && self.state.status_spec() is Ongoing && match self.seat.opponent {
            Opponent::Human => false,
            Opponent::Ai(_) => self.state.turn_spec() == self.ai_side,
            Opponent::Battle(_) => true,
        }
    }

    /// A fresh board behind the given seats, the cursor back at the start.
    pub open spec fn restarted(self, seat: Seat) -> bool {
        &&& self.state.fresh()
        &&& self.cursor == START_CURSOR
        &&& self.selected is None
        &&& self.seat == Seat { quit: false, ..seat }
        &&& self.ai_side == Side::Black
    }

    /// What activating the cursor does: take the stone under it when a
    /// capture is owed; otherwise pick up an own stone that can move, put a
    /// stone on another point while placing, move the picked stone there,
    /// drop the pick by activating it again, or pick another own stone.
    pub open spec fn activated(self, new: MorrisControl) -> bool {
        let g = self.state;
        let at = self.cursor as int;
        let movable_here = g.legal_moves_spec(at).len() > 0;
        &&& new.cursor == self.cursor
        &&& new.seat == self.seat
        &&& new.ai_side == self.ai_side
        &&& if g.removal_pending_spec() {
            remove_result(g, at, new.state) && new.selected == self.selected
        } else {
            match self.selected {
                None => if own_at(g, at) {
                    new.state == g && new.selected == (if movable_here {
                        Some(self.cursor)
                    } else {
                        None
                    })
                } else {
                    place_result(g, at, new.state) && new.selected is None
                },
                Some(src) => if src != self.cursor && g.legal_moves_spec(src as int).contains(self.cursor)
                    && g.can_move(src as int, at) {
                    g.slid(src, self.cursor, new.state) && new.selected is None
                } else {
                    new.state == g && new.selected == (if src == self.cursor {
                        None
                    } else if own_at(g, at) && movable_here {
                        Some(self.cursor)
                    } else {
                        Some(src)
                    })
                },
            }
        }
    }

    /// The picker opened again over the game as it stands, on its first
    /// entry, with no stone picked.
    pub open spec fn menu_opened(self, new: MorrisControl) -> bool {
        new == MorrisControl { seat: Seat { setup_open: true, menu_index: 0, ..self.seat }, selected: None, ..self }
    }

    /// The table after `key`; see [`MorrisControl::handle_key`].
    pub open spec fn after_key(self, key: Key, new: MorrisControl) -> bool {
        if self.seat.setup_open {
            let (seat, common) = self.seat.after_key(key);
            match common {
                Common::Start => new.restarted(seat),
                _ => new == MorrisControl { seat, ..self },
            }
        } else if key == Key::Char('q') {
            new == MorrisControl { seat: Seat { quit: true, ..self.seat }, ..self }
        } else if key == Key::Char('R') {
            new.restarted(self.seat)
        } else if key == Key::Char('m') {
            self.menu_opened(new)
        } else if self.ai_turn() {
            new == self
        } else if key == Key::Esc {
            new == MorrisControl { selected: None, ..self }
        } else if key == Key::Left || key == Key::Char('h') || key == Key::Up || key == Key::Char('k') {
            new == MorrisControl { cursor: ((self.cursor + 23) % 24) as usize, ..self }
        } else if key == Key::Right || key == Key::Char('l') || key == Key::Down || key == Key::Char('j') {
            new == MorrisControl { cursor: ((self.cursor + 1) % 24) as usize, ..self }
        } else if key == Key::Enter || key == Key::Char(' ') {
            self.activated(new)
        } else {
            new == self
        }
    }

    pub fn new() -> (c: Self)
        ensures
            c.wf(),
            c.restarted(Seat::new_spec()),
    {
        MorrisControl { state: Morris::new(), cursor: START_CURSOR, selected: None, seat: Seat::new(), ai_side: Side::Black }
    }

    fn reset(&mut self)
        requires
            old(self).seat.wf(),
        ensures
            final(self).wf(),
            final(self).restarted(old(self).seat),
    {
        self.state = Morris::new();
        self.cursor = START_CURSOR;
        self.selected = None;
        self.seat.quit = false;
        self.ai_side = Side::Black;
    }

    pub fn ai_to_move(&self) -> (r: bool)
        ensures
            r == self.ai_turn(),
    {
        let ongoing = match self.state.status() {
            Status::Ongoing => true,
            _ => false,
        };
        self.seat.ai_to_move(ongoing, self.state.turn() == self.ai_side)
    }

    fn own_movable(&self, at: usize) -> (r: (bool, bool))
        requires
            self.wf(),
            at < POINTS,
        ensures
            r.0 == own_at(self.state, at as int),
            r.1 == (self.state.legal_moves_spec(at as int).len() > 0),
    {
        let own = match self.state.point(at) {
            Some(s) => s == self.state.turn(),
            None => false,
        };
        let movable = self.state.legal_moves_from(at).len() > 0;
        (own, movable)
    }

    /// Captures, places, picks or moves at the cursor; see
    /// [`MorrisControl::activated`].
    pub fn activate(&mut self)
        requires
            old(self).wf(),
        ensures
            final(self).wf(),
            old(self).activated(*final(self)),
    {
        let at = self.cursor;
        if self.state.removal_pending() {
            let _ = self.state.remove(at);
            return;
        }
        let (own, movable) = self.own_movable(at);
        match self.selected {
            None => {
                if own {
                    if movable {
                        self.selected = Some(at);
                    }
                } else {
                    let _ = self.state.place(at);
                }
            },
            Some(src) => {
                if src != at && src < POINTS {
                    let targets = self.state.legal_moves_from(src);
                    let mut listed = false;
                    let mut k: usize = 0;
                    while k < targets.len()
                        invariant
                            0 <= k <= targets@.len(),
                            listed == exists|j: int| 0 <= j < k && targets@[j] == at,
                        decreases targets@.len() - k,
                    {
                        if targets[k] == at {
                            listed = true;
                        }
                        k += 1;
                    }
                    assert(listed == targets@.contains(at));
                    if listed {
                        if self.state.move_stone(src, at) {
                            self.selected = None;
                            return;
                        }
                    }
                }
                if src == at {
                    self.selected = None;
                } else if own && movable {
                    self.selected = Some(at);
                }
            },
        }
    }

    /// Handles a key. In the picker the shared keys work (see
    /// [`Seat::after_key`]). On the board `q` quits, `R` restarts and `m`
    /// opens the picker over the game; while the computer is to move
    /// nothing else works, otherwise `Esc` drops the pick, left and up step
    /// the cursor back, right and down forward (round the 24 points), and
    /// enter or space activate it.
    pub fn handle_key(&mut self, key: Key)
        requires
            old(self).wf(),
        ensures
            final(self).wf(),
            old(self).after_key(key, *final(self)),
    {
        if self.seat.setup_open {
            match self.seat.key(key) {
                Common::Start => self.reset(),
                _ => {},
            }
            return;
        }
        if key == Key::Char('q') {
            self.seat.quit = true;
        } else if key == Key::Char('R') {
            self.reset();
        } else if key == Key::Char('m') {
            self.seat.setup_open = true;
            self.seat.menu_index = 0;
            self.selected = None;
        } else if self.ai_to_move() {
        } else if key == Key::Esc {
            self.selected = None;
        } else if key == Key::Left || key == Key::Char('h') || key == Key::Up || key == Key::Char('k') {
            self.cursor = (self.cursor + 23) % 24;
        } else if key == Key::Right || key == Key::Char('l') || key == Key::Down || key == Key::Char('j') {
            self.cursor = (self.cursor + 1) % 24;
        } else if key == Key::Enter || key == Key::Char(' ') {
            self.activate();
        }
    }

    /// A click on picker entry `index`: it is highlighted and confirmed.
    pub fn click_entry(&mut self, index: usize)
        requires
            old(self).wf(),
        ensures
            final(self).wf(),
            !old(self).seat.setup_open || index >= 7 ==> *final(self) == *old(self),
            old(self).seat.setup_open && index < 7 ==> (MorrisControl {
                seat: Seat { menu_index: index, ..old(self).seat },
                ..*old(self)
            }).after_key(Key::Enter, *final(self)),
    {
        if !self.seat.setup_open || index >= 7 {
            return;
        }
        self.seat.menu_index = index;
        match self.seat.key(Key::Enter) {
            Common::Start => self.reset(),
            _ => {},
        }
    }

    /// A click on point `p`: unless the picker is open or the computer is to
    /// move, the cursor goes there and is activated.
    pub fn click_point(&mut self, p: usize)
        requires
            old(self).wf(),
        ensures
            final(self).wf(),
            if old(self).seat.setup_open || old(self).ai_turn() || p >= POINTS {
                *final(self) == *old(self)
            } else {
                (MorrisControl { cursor: p, ..*old(self) }).activated(*final(self))
            },
    {
        if self.seat.setup_open || self.ai_to_move() || p >= POINTS {
            return;
        }
        self.cursor = p;
        self.activate();
    }

    /// The restart button: a fresh board unless the computer is to move.
    pub fn restart_button(&mut self)
        requires
            old(self).wf(),
        ensures
            final(self).wf(),
            old(self).seat.setup_open || old(self).ai_turn() ==> *final(self) == *old(self),
            !(old(self).seat.setup_open || old(self).ai_turn()) ==> final(self).restarted(old(self).seat),
    {
        if self.seat.setup_open || self.ai_to_move() {
            return;
        }
        self.reset();
    }

    /// One computer action: the capture it owes, or else the placement or
    /// move it picks.
    pub fn tick(&mut self)
        requires
            old(self).wf(),
        ensures
            final(self).wf(),
            final(self).cursor == old(self).cursor,
            final(self).selected == old(self).selected,
            final(self).seat == old(self).seat,
            final(self).ai_side == old(self).ai_side,
            !old(self).ai_turn() ==> final(self).state == old(self).state,
            old(self).ai_turn() && old(self).state.removal_pending_spec() ==> if exists|i: int|
                #[trigger] old(self).state.can_remove(i) {
                exists|i: usize|
                    old(self).state.can_remove(i as int) && #[trigger] old(self).state.took(i, final(self).state)
            } else {
                final(self).state == old(self).state
            },
            old(self).ai_turn() && !old(self).state.removal_pending_spec() ==> if exists|a: Action|
                #[trigger] offered(old(self).state, a) {
                exists|a: Action|
                    offered(old(self).state, a) && #[trigger] action_result(old(self).state, a, final(self).state)
            } else {
                final(self).state == old(self).state
            },
    {
        if !self.ai_to_move() {
            return;
        }
        let difficulty = match self.seat.difficulty() {
            Some(d) => d,
            None => return,
        };
        if self.state.removal_pending() {
            match ai::best_removal(&self.state, difficulty) {
                Some(target) => {
                    let ghost g0 = self.state;
                    let ok = self.state.remove(target);
                    assert(ok);
                    assert(g0.took(target, self.state));
                },
                None => {},
            }
        } else {
            match ai::best_action(&self.state, difficulty) {
                Some(action) => {
                    let ghost g0 = self.state;
                    match action {
                        Action::Place(i) => {
                            let _ = self.state.place(i);
                        },
                        Action::Move(from, to) => {
                            let _ = self.state.move_stone(from, to);
                        },
                        Action::Remove(_) => {},
                    }
                    assert(action_result(g0, action, self.state));
                },
                None => {},
            }
        }
    }
}

} // verus!

//! The opponent picker every game opens with, and the keys all games share:
//! quit, back to the picker, and restart during an AI duel.

use crate::game_core::Difficulty;
use vstd::prelude::*;

verus! {

/// A key as the games read it.
#[derive(Clone, Copy, PartialEq, Eq, Debug, Structural)]
pub enum Key {
    Up,
    Down,
    Left,
    Right,
    Enter,
    Esc,
    Char(char),
    Other,
}

/// Who sits opposite the human.
#[derive(Clone, Copy, PartialEq, Eq, Debug, Structural)]
pub enum Opponent {
    Human,
    Ai(Difficulty),
    Battle(Difficulty),
}

/// Entries of the opponent picker: two players, then each preset against
/// the computer, then each preset as a duel of two computer players.
pub const SETUP_ITEMS: usize = 7;

pub open spec fn difficulty_at(i: int) -> Difficulty {
    if i == 0 {
        Difficulty::Easy
    } else if i == 1 {
        Difficulty::Medium
    } else {
        Difficulty::Hard
    }
}

/// The opponent a picker entry stands for.
pub open spec fn opponent_spec(index: int) -> Option<Opponent> {
    if index == 0 {
        Some(Opponent::Human)
    } else if 1 <= index <= 3 {
        Some(Opponent::Ai(difficulty_at(index - 1)))
    } else if 4 <= index <= 6 {
        Some(Opponent::Battle(difficulty_at(index - 4)))
    } else {
        None
    }
}

fn difficulty_of(i: usize) -> (d: Difficulty)
    requires
        i < 3,
    ensures
        d == difficulty_at(i as int),
{
    if i == 0 {
        Difficulty::Easy
    } else if i == 1 {
        Difficulty::Medium
    } else {
        Difficulty::Hard
    }
}

/// The opponent a picker entry stands for.
pub fn opponent_for(index: usize) -> (r: Option<Opponent>)
    ensures
        r == opponent_spec(index as int),
{
    if index == 0 {
        Some(Opponent::Human)
    } else if index <= 3 {
        Some(Opponent::Ai(difficulty_of(index - 1)))
    } else if index <= 6 {
        Some(Opponent::Battle(difficulty_of(index - 4)))
    } else {
        None
    }
}

/// What the shared keys left for the game itself.
#[derive(Clone, Copy, PartialEq, Eq, Debug, Structural)]
pub enum Common {
    /// Fully handled here.
    Done,
    /// A new opponent was chosen: the game starts afresh.
    Start,
    /// Restart the game with the same opponent.
    Restart,
    /// The picker was opened again: the game starts afresh behind it.
    Menu,
    /// A board key for the game.
    Board(Key),
}

/// The picker and the choice it produced.
#[derive(Clone, Copy, PartialEq, Eq, Debug, Structural)]
pub struct Seat {
    pub setup_open: bool,
    pub menu_index: usize,
    pub opponent: Opponent,
    pub quit: bool,
}

/// The digit `1`..=`n` as a picker index.
pub open spec fn digit_index(c: char, n: int) -> Option<int> {
    let v = c as int - 49;
    if 0 <= v < n {
        Some(v)
    } else {
        None
    }
}

/// The picker entry a digit key names.
pub open spec fn digit_key(key: Key) -> Option<int> {
    match key {
        Key::Char(c) => digit_index(c, SETUP_ITEMS as int),
        _ => None,
    }
}

/// A key moving the picker up.
pub open spec fn is_up(k: Key) -> bool {
    k == Key::Up || k == Key::Char('k')
}

pub open spec fn is_down(k: Key) -> bool {
    k == Key::Down || k == Key::Char('j')
}

pub open spec fn is_confirm(k: Key) -> bool {
    k == Key::Enter || k == Key::Char(' ')
}

impl Seat {
    pub open spec fn wf(self) -> bool {
        self.menu_index < SETUP_ITEMS
    }

    pub open spec fn is_duel(self) -> bool {
        self.opponent is Battle
    }

    /// The seat after `key`, and what is left for the game.
    pub open spec fn after_key(self, key: Key) -> (Seat, Common) {
        let n = SETUP_ITEMS as int;
        if key == Key::Char('q') {
            (Seat { quit: true, ..self }, Common::Done)
        } else if self.setup_open {
            if key == Key::Esc {
                (Seat { quit: true, ..self }, Common::Done)
            } else if is_up(key) {
                (Seat { menu_index: ((self.menu_index + n - 1) % n) as usize, ..self }, Common::Done)
            } else if is_down(key) {
                (Seat { menu_index: ((self.menu_index + 1) % n) as usize, ..self }, Common::Done)
            } else if is_confirm(key) {
                match opponent_spec(self.menu_index as int) {
                    Some(o) => (Seat { opponent: o, setup_open: false, ..self }, Common::Start),
                    None => (self, Common::Done),
                }
            } else if key matches Key::Char(c) && digit_index(c, n) is Some {
                (Seat { menu_index: digit_index(key->0, n)->0 as usize, ..self }, Common::Done)
            } else {
                (self, Common::Done)
            }
        } else if key == Key::Char('m') {
            (Seat { setup_open: true, ..self }, Common::Menu)
        } else if self.is_duel() {
            if key == Key::Char('R') {
                (self, Common::Restart)
            } else {
                (self, Common::Done)
            }
        } else {
            (self, Common::Board(key))
        }
    }

    /// The picker open on its first entry, two human players.
    pub open spec fn new_spec() -> Seat {
        Seat { setup_open: true, menu_index: 0, opponent: Opponent::Human, quit: false }
    }

    /// The picker open on its first entry, two human players.
    pub fn new() -> (s: Seat)
        ensures
            s.wf(),
            s == Seat::new_spec(),
    {
        Seat { setup_open: true, menu_index: 0, opponent: Opponent::Human, quit: false }
    }

    /// The difficulty of the computer seat, if there is one.
    pub fn difficulty(&self) -> (r: Option<Difficulty>)
        ensures
            r == match self.opponent {
                Opponent::Ai(d) => Some(d),
                Opponent::Battle(d) => Some(d),
                Opponent::Human => None,
            },
    {
        match self.opponent {
            Opponent::Ai(d) => Some(d),
            Opponent::Battle(d) => Some(d),
            Opponent::Human => None,
        }
    }

    pub fn is_duel_now(&self) -> (r: bool)
        ensures
            r == self.is_duel(),
    {
        match self.opponent {
            Opponent::Battle(_) => true,
            _ => false,
        }
    }

    /// A computer player owns the position: in a duel always, against the
    /// computer when `ai_turn` says the side to move is its side; never
    /// while the picker is open or once the game is over.
    pub fn ai_to_move(&self, ongoing: bool, ai_turn: bool) -> (r: bool)
        ensures
            r == (!self.setup_open && ongoing && match self.opponent {
                Opponent::Human => false,
                Opponent::Ai(_) => ai_turn,
                Opponent::Battle(_) => true,
            }),
    {
        if self.setup_open || !ongoing {
            return false;
        }
        match self.opponent {
            Opponent::Human => false,
            Opponent::Ai(_) => ai_turn,
            Opponent::Battle(_) => true,
        }
    }

    /// Picks entry `index` of the picker: a valid entry closes the picker
    /// with that opponent.
    pub fn pick(&mut self, index: usize) -> (c: Common)
        requires
            old(self).wf(),
        ensures
            final(self).wf(),
            match opponent_spec(index as int) {
                Some(o) => c == Common::Start && *final(self) == (Seat {
                    opponent: o,
                    setup_open: false,
                    ..*old(self)
                }),
                None => c == Common::Done && *final(self) == *old(self),
            },
    {
        match opponent_for(index) {
            Some(o) => {
                self.opponent = o;
                self.setup_open = false;
                Common::Start
            },
            None => Common::Done,
        }
    }

    /// Handles the keys all games share; see [`Seat::after_key`].
    pub fn key(&mut self, key: Key) -> (c: Common)
        requires
            old(self).wf(),
        ensures
            final(self).wf(),
            (*final(self), c) == old(self).after_key(key),
    {
        let n = SETUP_ITEMS;
        if key == Key::Char('q') {
            self.quit = true;
            return Common::Done;
        }
        if self.setup_open {
            if key == Key::Esc {
                self.quit = true;
                return Common::Done;
            }
            if key == Key::Up || key == Key::Char('k') {
                self.menu_index = (self.menu_index + n - 1) % n;
                return Common::Done;
            }
            if key == Key::Down || key == Key::Char('j') {
                self.menu_index = (self.menu_index + 1) % n;
                return Common::Done;
            }
            if key == Key::Enter || key == Key::Char(' ') {
                let i = self.menu_index;
                return self.pick(i);
            }
            if let Key::Char(c) = key {
                if c >= '1' && c <= '7' {
                    self.menu_index = (c as u32 - 49) as usize;
                }
            }
            return Common::Done;
        }
        if key == Key::Char('m') {
            self.setup_open = true;
            return Common::Menu;
        }
        if self.is_duel_now() {
            if key == Key::Char('R') {
                return Common::Restart;
            }
            return Common::Done;
        }
        Common::Board(key)
    }
}

} // verus!

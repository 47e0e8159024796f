//! What a go table does with keys, clicks and computer turns: the picker,
//! the point cursor, playing stones and passing.

use crate::game_core::Difficulty;
use crate::game_core::seat::{Common, Key, Opponent, Seat, digit_key, opponent_spec};
use crate::go::ai::{self, playable, searchable};
use crate::go::engine::{GoState, MoveResult, Player};
use vstd::prelude::*;

verus! {

/// Side length of the board the table plays on.
pub const SIZE: usize = 9;

/// Where the cursor goes on a fresh board: the centre point.
pub const CENTRE: usize = 40;

/// A game of go with its table: the engine, the point cursor, the seats,
/// the colour the computer plays and its last stone.
pub struct GoControl {
    pub state: GoState,
    pub cursor: usize,
    pub seat: Seat,
    pub ai_side: Player,
    pub last_ai_move: Option<usize>,
}

/// Capital `Q`, `M` and `P` read as `q`, `m` and `p`.
pub open spec fn folded(key: Key) -> Key {
    if key == Key::Char('Q') {
        Key::Char('q')
    } else if key == Key::Char('M') {
        Key::Char('m')
    } else if key == Key::Char('P') {
        Key::Char('p')
    } else {
        key
    }
}

fn fold(key: Key) -> (k: Key)
    ensures
        k == folded(key),
{
    if key == Key::Char('Q') {
        Key::Char('q')
    } else if key == Key::Char('M') {
        Key::Char('m')
    } else if key == Key::Char('P') {
        Key::Char('p')
    } else {
        key
    }
}

pub open spec fn difficulty_index(d: Difficulty) -> int {
    match d {
        Difficulty::Easy => 0,
        Difficulty::Medium => 1,
        Difficulty::Hard => 2,
    }
}

/// The picker entry that stands for `o`.
pub open spec fn entry_of(o: Opponent) -> int {
    match o {
        Opponent::Human => 0,
        Opponent::Ai(d) => 1 + difficulty_index(d),
        Opponent::Battle(d) => 4 + difficulty_index(d),
    }
}

fn entry_for(o: Opponent) -> (r: usize)
    ensures
        r == entry_of(o),
        r < 7,
{
    let d = match o {
        Opponent::Human => return 0,
        Opponent::Ai(d) => d,
        Opponent::Battle(d) => d,
    };
    let k: usize = match d {
        Difficulty::Easy => 0,
        Difficulty::Medium => 1,
        Difficulty::Hard => 2,
    };
    match o {
        Opponent::Ai(_) => 1 + k,
        _ => 4 + k,
    }
}

/// The capture counters leave room for one more move's captures.
pub open spec fn fits(g: GoState) -> bool {
    &&& g.captures_spec().0 + g.cells_spec().len() <= u32::MAX
    &&& g.captures_spec().1 + g.cells_spec().len() <= u32::MAX
}

/// A stone on `idx` as [`GoState::play`] places it; any refused move, or
/// counters too full to count another capture, leaves the game alone.
pub open spec fn play_result(g: GoState, idx: int, new: GoState) -> bool {
    if fits(g) && g.outcome(idx) == MoveResult::Played {
        g.placed(idx, new)
    } else {
        new == g
    }
}

/// A pass as [`GoState::pass`] makes it; a finished game, or a pass count
/// at its limit, leaves the game alone.
pub open spec fn pass_result(g: GoState, new: GoState) -> bool {
    if !g.over_spec() && g.passes_spec() < 255 {
        g.passed(new)
    } else {
        new == g
    }
}

/// The cursor moved by `(dr, dc)` when that stays on the board.
pub open spec fn stepped(c: int, dr: int, dc: int) -> int {
    let (r, col) = (c / 9 + dr, c % 9 + dc);
    if 0 <= r < 9 && 0 <= col < 9 {
        r * 9 + col
    } else {
        c
    }
}

impl GoControl {
    pub open spec fn wf(self) -> bool {
        &&& self.state.wf()
        &&& self.state.size_spec() == SIZE
        &&& self.seat.wf()
        &&& self.cursor < 81
    }

    /// A computer player owns the position.
    pub open spec fn ai_turn(self) -> bool {
        !self.seat.setup_open && !self.state.over_spec() && match self.seat.opponent {
            Opponent::Human => false,
            Opponent::Ai(_) => self.state.turn_spec() == self.ai_side,
            Opponent::Battle(_) => true,
        }
    }

    /// A fresh board behind the given seats, the cursor in the centre; the
    /// computer plays White, so the human opens with Black.
    pub open spec fn restarted(self, seat: Seat) -> bool {
        &&& self.state.wf()
        &&& self.state.size_spec() == SIZE
        &&& self.state.cells_spec() == Seq::new(81, |i: int| Player::Empty)
        &&& self.state.turn_spec() == Player::Black
        &&& self.state.captures_spec() == (0u32, 0u32)
        &&& self.state.passes_spec() == 0
        &&& !self.state.over_spec()
        &&& self.state.last_move_spec() is None
        &&& self.state.seen_spec() == seq![(self.state.cells_spec(), Player::Black)]
        &&& self.cursor == CENTRE
        &&& self.last_ai_move is None
        &&& self.seat == Seat { quit: false, ..seat }
        &&& self.ai_side == Player::White
    }

    /// The table after `key`; see [`GoControl::handle_key`].
    pub open spec fn after_key(self, key: Key, new: GoControl) -> bool {
        let k = folded(key);
        if self.seat.setup_open {
            if digit_key(k) is Some {
                new.restarted(Seat { opponent: opponent_spec(digit_key(k)->0)->0, setup_open: false, ..self.seat })
            } else {
                let (seat, common) = self.seat.after_key(k);
                match common {
                    Common::Start => new.restarted(seat),
                    _ => new == GoControl { seat, ..self },
                }
            }
        } else if k == Key::Char('q') || k == Key::Esc {
            new == GoControl { seat: Seat { quit: true, ..self.seat }, ..self }
        } else if k == Key::Left || k == Key::Char('h') {
            new == GoControl { cursor: stepped(self.cursor as int, 0, -1) as usize, ..self }
        } else if k == Key::Right || k == Key::Char('l') {
            new == GoControl { cursor: stepped(self.cursor as int, 0, 1) as usize, ..self }
        } else if k == Key::Up || k == Key::Char('k') {
            new == GoControl { cursor: stepped(self.cursor as int, -1, 0) as usize, ..self }
        } else if k == Key::Down || k == Key::Char('j') {
            new == GoControl { cursor: stepped(self.cursor as int, 1, 0) as usize, ..self }
        } else if k == Key::Enter || k == Key::Char(' ') {
            if self.ai_turn() {
                new == self
            } else {
                new == GoControl { state: new.state, ..self } && play_result(self.state, self.cursor as int, new.state)
            }
        } else if k == Key::Char('p') {
            if self.ai_turn() {
                new == self
            } else {
                new == GoControl { state: new.state, ..self } && pass_result(self.state, new.state)
            }
        } else if (k == Key::Char('r') && !self.seat.is_duel()) || k == Key::Char('R') {
            new.restarted(self.seat)
        } else if k == Key::Char('m') {
            new.restarted(Seat { setup_open: true, menu_index: entry_of(self.seat.opponent) as usize, ..self.seat })
        } else {
            new == self
        }
    }

    /// A table with the picker open and the cursor on the first point.
    pub fn new() -> (c: Self)
        ensures
            c.wf(),
            c.seat == Seat::new_spec(),
            c.cursor == 0,
            c.ai_side == Player::White,
            c.last_ai_move is None,
            c.state.cells_spec() == Seq::new(81, |i: int| Player::Empty),
            c.state.turn_spec() == Player::Black,
            !c.state.over_spec(),
    {
        GoControl { state: GoState::new(SIZE), cursor: 0, seat: Seat::new(), ai_side: Player::White, last_ai_move: None }
    }

    fn reset(&mut self)
        requires
            old(self).seat.wf(),
        ensures
            final(self).wf(),
            final(self).restarted(old(self).seat),
    {
        self.state = GoState::new(SIZE);
        self.cursor = CENTRE;
        self.last_ai_move = None;
        self.seat.quit = false;
        self.ai_side = Player::White;
    }

    pub fn ai_to_move(&self) -> (r: bool)
        ensures
            r == self.ai_turn(),
    {
        self.seat.ai_to_move(!self.state.is_over(), self.state.to_move() == self.ai_side)
    }

    fn counters_fit(&self) -> (b: bool)
        requires
            self.wf(),
        ensures
            b == fits(self.state),
    {
        let (cb, cw) = self.state.captures();
        let len = self.state.board().len() as u64;
        cb as u64 + len <= 4294967295u64 && cw as u64 + len <= 4294967295u64
    }

    fn play_at(&mut self, idx: usize)
        requires
            old(self).wf(),
        ensures
            final(self).wf(),
            *final(self) == (GoControl { state: final(self).state, ..*old(self) }),
            play_result(old(self).state, idx as int, final(self).state),
    {
        if !self.counters_fit() {
            return;
        }
        let _ = self.state.play(idx);
    }

    fn pass_now(&mut self)
        requires
            old(self).wf(),
        ensures
            final(self).wf(),
            *final(self) == (GoControl { state: final(self).state, ..*old(self) }),
            pass_result(old(self).state, final(self).state),
    {
        if !self.state.is_over() && self.state.pass_count() == 255 {
            return;
        }
        let _ = self.state.pass();
    }

    fn move_cursor(&mut self, dr: i8, dc: i8)
        requires
            old(self).wf(),
            -1 <= dr <= 1,
            -1 <= dc <= 1,
        ensures
            final(self).wf(),
            *final(self) == (GoControl { cursor: stepped(old(self).cursor as int, dr as int, dc as int) as usize, ..*old(self) }),
    {
        let r = (self.cursor / SIZE) as i8 + dr;
        let c = (self.cursor % SIZE) as i8 + dc;
        if r >= 0 && r < 9 && c >= 0 && c < 9 {
            self.cursor = (r as usize) * SIZE + c as usize;
        }
    }

    /// Handles a key. In the picker a digit starts its entry at once and
    /// the other keys are the shared ones (see [`Seat::after_key`]). On the
    /// board `q` and `Esc` quit, the arrows and `h j k l` move the cursor,
    /// enter or space play a stone there and `p` passes unless the computer
    /// is to move, `r` (not during a duel) and `R` restart, and `m` goes
    /// back to the picker on the current opponent's entry; capital `Q`,
    /// `M` and `P` act as the small letters.
    pub fn handle_key(&mut self, key: Key)
        requires
            old(self).wf(),
        ensures
            final(self).wf(),
            old(self).after_key(key, *final(self)),
    {
        let k = fold(key);
        if self.seat.setup_open {
            if let Key::Char(c) = k {
                if c >= '1' && c <= '7' {
                    let index = (c as u32 - 49) as usize;
                    self.seat.pick(index);
                    self.reset();
                    return;
                }
            }
            match self.seat.key(k) {
                Common::Start => self.reset(),
                _ => {},
            }
            return;
        }
        if k == Key::Char('q') || k == Key::Esc {
            self.seat.quit = true;
        } else if k == Key::Left || k == Key::Char('h') {
            self.move_cursor(0, -1);
        } else if k == Key::Right || k == Key::Char('l') {
            self.move_cursor(0, 1);
        } else if k == Key::Up || k == Key::Char('k') {
            self.move_cursor(-1, 0);
        } else if k == Key::Down || k == Key::Char('j') {
            self.move_cursor(1, 0);
        } else if k == Key::Enter || k == Key::Char(' ') {
            if !self.ai_to_move() {
                let at = self.cursor;
                self.play_at(at);
            }
        } else if k == Key::Char('p') {
            if !self.ai_to_move() {
                self.pass_now();
            }
        } else if (k == Key::Char('r') && !self.seat.is_duel_now()) || k == Key::Char('R') {
            self.reset();
        } else if k == Key::Char('m') {
            self.seat.menu_index = entry_for(self.seat.opponent);
            self.seat.setup_open = true;
            self.reset();
        }
    }

    /// A click on picker entry `index`: it is highlighted and starts.
    pub fn click_entry(&mut self, index: usize)
        requires
            old(self).wf(),
        ensures
            final(self).wf(),
            !old(self).seat.setup_open || opponent_spec(index as int) is None ==> *final(self) == *old(self),
            old(self).seat.setup_open && opponent_spec(index as int) is Some ==> final(self).restarted(
                Seat { opponent: opponent_spec(index as int)->0, setup_open: false, menu_index: index, ..old(self).seat },
            ),
    {
        if !self.seat.setup_open || index >= 7 {
            return;
        }
        self.seat.menu_index = index;
        self.seat.pick(index);
        self.reset();
    }

    /// A click on point `idx`: unless the picker is open, a duel runs or
    /// the computer is to move, the cursor goes there and a stone is played.
    pub fn click_point(&mut self, idx: usize)
        requires
            old(self).wf(),
        ensures
            final(self).wf(),
            if old(self).seat.setup_open || old(self).seat.is_duel() || old(self).ai_turn() || idx >= 81 {
                *final(self) == *old(self)
            } else {
                &&& *final(self) == (GoControl { state: final(self).state, cursor: idx, ..*old(self) })
                &&& play_result(old(self).state, idx as int, final(self).state)
            },
    {
        if self.seat.setup_open || self.seat.is_duel_now() || self.ai_to_move() || idx >= 81 {
            return;
        }
        self.cursor = idx;
        self.play_at(idx);
    }

    /// The pass button: the side to move passes, except while the picker
    /// is open or a duel runs.
    pub fn pass_button(&mut self)
        requires
            old(self).wf(),
        ensures
            final(self).wf(),
            old(self).seat.setup_open || old(self).seat.is_duel() ==> *final(self) == *old(self),
            !(old(self).seat.setup_open || old(self).seat.is_duel()) ==> {
                &&& *final(self) == (GoControl { state: final(self).state, ..*old(self) })
                &&& pass_result(old(self).state, final(self).state)
            },
    {
        if self.seat.setup_open || self.seat.is_duel_now() {
            return;
        }
        self.pass_now();
    }

    /// The restart button: a fresh board, except while the picker is open
    /// or a duel runs.
    pub fn restart_button(&mut self)
        requires
            old(self).wf(),
        ensures
            final(self).wf(),
            old(self).seat.setup_open || old(self).seat.is_duel() ==> *final(self) == *old(self),
            !(old(self).seat.setup_open || old(self).seat.is_duel()) ==> final(self).restarted(old(self).seat),
    {
        if self.seat.setup_open || self.seat.is_duel_now() {
            return;
        }
        self.reset();
    }

    /// One computer move: the stone the computer picks, with the cursor on
    /// it, or a pass when it picks none. A position too large for the
    /// search leaves the computer idle.
    pub fn tick(&mut self)
        requires
            old(self).wf(),
        ensures
            final(self).wf(),
            final(self).seat == old(self).seat,
            final(self).ai_side == old(self).ai_side,
            !(old(self).ai_turn() && searchable(old(self).state)) ==> *final(self) == *old(self),
            old(self).ai_turn() && searchable(old(self).state) ==> {
                ||| exists|idx: usize|
                    #![trigger playable(old(self).state, idx as int)]
                    playable(old(self).state, idx as int) && old(self).state.placed(idx as int, final(self).state)
                        && final(self).cursor == idx && final(self).last_ai_move == Some(idx)
                ||| {
                    &&& final(self).cursor == old(self).cursor
                    &&& final(self).last_ai_move == old(self).last_ai_move
                    &&& pass_result(old(self).state, final(self).state)
                }
            },
            old(self).ai_turn() && searchable(old(self).state) && (forall|idx: int|
                0 <= idx < 81 ==> !#[trigger] playable(old(self).state, idx)) ==> {
                &&& final(self).cursor == old(self).cursor
                &&& final(self).last_ai_move == old(self).last_ai_move
                &&& pass_result(old(self).state, final(self).state)
            },
    {
        if !self.ai_to_move() {
            return;
        }
        let difficulty = match self.seat.difficulty() {
            Some(d) => d,
            None => return,
        };
        let len = self.state.board().len();
        let (cb, cw) = self.state.captures();
        if len as u64 > ai::MAX_POINTS || cb as u64 + 2 * (len as u64) > 4294967295u64 || cw as u64 + 2 * (len as u64)
            > 4294967295u64 {
            return;
        }
        match ai::best_move(&self.state, difficulty) {
            Some(idx) => {
                let r = self.state.play(idx);
                assert(r == MoveResult::Played);
                self.cursor = idx;
                self.last_ai_move = Some(idx);
            },
            None => {
                self.pass_now();
            },
        }
    }
}

} // verus!

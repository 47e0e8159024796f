//! What a mancala table does with keys, clicks and computer turns: the
//! picker, the pit cursor on the mover's side, and sowing.

use crate::game_core::seat::{Common, Key, Opponent, Seat};
use crate::mancala::ai::{self, legal_moves};
use crate::mancala::engine::{Mancala, Side, first_pit, lemma_nonempty_pits_contains, own_pit};
use vstd::prelude::*;

verus! {

/// A game of mancala with its table: the engine, the pit cursor, the seats,
/// and the side the computer plays.
pub struct MancalaControl {
    pub engine: Mancala,
    pub cursor: Option<usize>,
    pub seat: Seat,
    pub ai_side: Side,
}

/// The `step`-th pit from offset `start` of the six pits from `first`,
/// walking forward or backward with wrap-around.
pub open spec fn probe(first: int, start: int, step: int, forward: bool) -> int {
    first + if forward {
        (start + step) % 6
    } else {
        (start + 6 - step) % 6
    }
}

/// The first of the probes `step..=6` that is a legal pit.
pub open spec fn scan_from(legal: Seq<usize>, first: int, start: int, step: int, forward: bool) -> Option<usize>
    decreases 7 - step,
{
    if step > 6 || step < 1 {
        None
    } else if legal.contains(probe(first, start, step, forward) as usize) {
        Some(probe(first, start, step, forward) as usize)
    } else {
        scan_from(legal, first, start, step + 1, forward)
    }
}

/// The cursor after stepping to the next legal pit of the mover in the
/// given direction (`None` when the mover has no legal pit).
pub open spec fn cycled(g: Mancala, cursor: Option<usize>, forward: bool) -> Option<usize> {
    let legal = legal_moves(g);
    let first = first_pit(g.turn_spec());
    let start = start_of(g, cursor);
    if legal.len() == 0 {
        None
    } else {
        match scan_from(legal, first, start, 1, forward) {
            Some(p) => Some(p),
            None => cursor,
        }
    }
}

/// Where the cursor sits among the mover's six pits (the first when it is
/// elsewhere).
pub open spec fn start_of(g: Mancala, cursor: Option<usize>) -> int {
    match cursor {
        Some(c) => if own_pit(g.turn_spec(), c as int) {
            c - first_pit(g.turn_spec())
        } else {
            0
        },
        None => 0,
    }
}

/// The cursor kept where it is if it still names a legal pit, otherwise
/// moved to the first legal pit (or to none).
pub open spec fn normalized(g: Mancala, cursor: Option<usize>) -> Option<usize> {
    match cursor {
        Some(c) => if legal_moves(g).contains(c) {
            cursor
        } else if legal_moves(g).len() > 0 {
            Some(legal_moves(g)[0])
        } else {
            None
        },
        None => None,
    }
}

fn contains(v: &Vec<usize>, x: usize) -> (b: bool)
    ensures
        b == v@.contains(x),
{
    let mut i: usize = 0;
    while i < v.len()
        invariant
            0 <= i <= v@.len(),
            forall|j: int| 0 <= j < i ==> v@[j] != x,
        decreases v@.len() - i,
    {
        if v[i] == x {
            assert(v@[i as int] == x);
            return true;
        }
        i += 1;
    }
    false
}

impl MancalaControl {
    pub open spec fn wf(self) -> bool {
        self.engine.wf() && self.seat.wf()
    }

    /// A computer player owns the position.
    pub open spec fn ai_turn(self) -> bool {
        !self.seat.setup_open && self.engine.status_spec() is Ongoing && match self.seat.opponent {
            Opponent::Human => false,
            Opponent::Ai(_) => self.engine.turn_spec() == self.ai_side,
            Opponent::Battle(_) => true,
        }
    }

    /// A fresh board behind the given seats, the cursor on the first pit.
    pub open spec fn restarted(self, seat: Seat) -> bool {
        &&& self.engine.fresh()
        &&& self.cursor == Some(0usize)
        &&& self.seat == Seat { quit: false, ..seat }
        &&& self.ai_side == Side::Black
    }

    /// What sowing at the cursor does: sow the pit under it when legal (the
    /// cursor then stays on a legal pit), or else sow the first legal pit
    /// and put the cursor there.
    pub open spec fn sowed_at_cursor(self, new: MancalaControl) -> bool {
        let g = self.engine;
        let legal = legal_moves(g);
        &&& new.seat == self.seat
        &&& new.ai_side == self.ai_side
        &&& match self.cursor {
            None => new == self,
            Some(pit) => if legal.contains(pit) {
                &&& g.sowed(pit, new.engine)
                &&& new.cursor == normalized(new.engine, Some(pit))
            } else if legal.len() > 0 {
                &&& g.sowed(legal[0], new.engine)
                &&& new.cursor == Some(legal[0])
            } else {
                new == self
            },
        }
    }

    /// The table after `key`; see [`MancalaControl::handle_key`].
    pub open spec fn after_key(self, key: Key, new: MancalaControl) -> bool {
        let (seat, common) = self.seat.after_key(key);
        let o = MancalaControl { seat, ..self };
        match common {
            Common::Start | Common::Menu | Common::Restart => new.restarted(seat),
            Common::Done => new == o,
            Common::Board(k) => if o.ai_turn() {
                new == o
            } else if k == Key::Left || k == Key::Char('h') {
                new == MancalaControl { cursor: cycled(o.engine, o.cursor, false), ..o }
            } else if k == Key::Right || k == Key::Char('l') {
                new == MancalaControl { cursor: cycled(o.engine, o.cursor, true), ..o }
            } else if k == Key::Enter || k == Key::Char(' ') {
                o.sowed_at_cursor(new)
            } else if k == Key::Char('R') {
                new.restarted(seat)
            } else {
                new == o
            },
        }
    }

    pub fn new() -> (c: Self)
        ensures
            c.wf(),
            c.restarted(Seat::new_spec()),
    {
        MancalaControl { engine: Mancala::new(), cursor: Some(0), seat: Seat::new(), ai_side: Side::Black }
    }

    fn reset(&mut self)
        requires
            old(self).seat.wf(),
        ensures
            final(self).wf(),
            final(self).restarted(old(self).seat),
    {
        self.engine = Mancala::new();
        self.cursor = Some(0);
        self.seat.quit = false;
        self.ai_side = Side::Black;
    }

    pub fn ai_to_move(&self) -> (r: bool)
        ensures
            r == self.ai_turn(),
    {
        self.seat.ai_to_move(self.engine.status().is_ongoing(), self.engine.turn() == self.ai_side)
    }

    fn cycle_cursor(&mut self, forward: bool)
        requires
            old(self).wf(),
        ensures
            *final(self) == (MancalaControl { cursor: cycled(old(self).engine, old(self).cursor, forward), ..*old(self) }),
    {
        let legal = self.engine.legal_pits();
        if legal.len() == 0 {
            self.cursor = None;
            return;
        }
        let first: usize = match self.engine.turn() {
            Side::White => 0,
            Side::Black => 7,
        };
        let start: usize = match self.cursor {
            Some(c) => if first <= c && c < first + 6 {
                c - first
            } else {
                0
            },
            None => 0,
        };
        let ghost g = self.engine;
        let ghost c0 = self.cursor;
        assert(start as int == start_of(g, c0));
        let mut step: usize = 1;
        while step <= 6
            invariant
                1 <= step <= 7,
                start < 6,
                first == first_pit(g.turn_spec()),
                legal@ == legal_moves(g),
                legal@.len() > 0,
                *self == *old(self),
                start as int == start_of(g, c0),
                g == old(self).engine,
                c0 == old(self).cursor,
                scan_from(legal@, first as int, start as int, 1, forward) == scan_from(
                    legal@,
                    first as int,
                    start as int,
                    step as int,
                    forward,
                ),
            decreases 7 - step,
        {
            let pit = first + if forward {
                (start + step) % 6
            } else {
                (start + 6 - step) % 6
            };
            assert(pit == probe(first as int, start as int, step as int, forward));
            if contains(&legal, pit) {
                assert(scan_from(legal@, first as int, start as int, step as int, forward) == Some(pit));
                self.cursor = Some(pit);
                return;
            }
            step += 1;
        }
        assert(scan_from(legal@, first as int, start as int, 7, forward) is None);
    }

    fn sow_at_cursor(&mut self)
        requires
            old(self).wf(),
        ensures
            final(self).wf(),
            old(self).sowed_at_cursor(*final(self)),
    {
        let pit = match self.cursor {
            Some(p) => p,
            None => return,
        };
        let legal = self.engine.legal_pits();
        proof {
            lemma_nonempty_pits_contains(self.engine.pits_spec(), first_pit(self.engine.turn_spec()), 6);
        }
        if !contains(&legal, pit) {
            if legal.len() > 0 {
                let first = legal[0];
                assert(legal@.contains(first));
                self.cursor = Some(first);
                let ok = self.engine.sow(first);
                assert(ok);
            }
            return;
        }
        let ok = self.engine.sow(pit);
        assert(ok);
        self.normalize_cursor();
    }

    fn normalize_cursor(&mut self)
        requires
            old(self).wf(),
        ensures
            *final(self) == (MancalaControl { cursor: normalized(old(self).engine, old(self).cursor), ..*old(self) }),
    {
        if let Some(c) = self.cursor {
            let legal = self.engine.legal_pits();
            if !contains(&legal, c) {
                self.cursor = if legal.len() > 0 {
                    Some(legal[0])
                } else {
                    None
                };
            }
        }
    }

    /// Handles a key: the shared keys first (see [`Seat::after_key`]), then,
    /// unless the computer is to move, left and right step the cursor to
    /// the mover's previous or next legal pit, enter or space sow at the
    /// cursor, and `R` restarts.
    pub fn handle_key(&mut self, key: Key)
        requires
            old(self).wf(),
        ensures
            final(self).wf(),
            old(self).after_key(key, *final(self)),
    {
        let common = self.seat.key(key);
        match common {
            Common::Start | Common::Menu | Common::Restart => {
                self.reset();
            },
            Common::Done => {},
            Common::Board(k) => {
                if self.ai_to_move() {
                    return;
                }
                if k == Key::Left || k == Key::Char('h') {
                    self.cycle_cursor(false);
                } else if k == Key::Right || k == Key::Char('l') {
                    self.cycle_cursor(true);
                } else if k == Key::Enter || k == Key::Char(' ') {
                    self.sow_at_cursor();
                } else if k == Key::Char('R') {
                    self.reset();
                }
            },
        }
    }

    /// A click on pit `pit`: unless the picker is open, a duel runs or the
    /// computer is to move, the cursor goes there and sows.
    pub fn click_pit(&mut self, pit: usize)
        requires
            old(self).wf(),
        ensures
            final(self).wf(),
            if old(self).seat.setup_open || old(self).seat.is_duel() || old(self).ai_turn() {
                *final(self) == *old(self)
            } else {
                (MancalaControl { cursor: Some(pit), ..*old(self) }).sowed_at_cursor(*final(self))
            },
    {
        if self.seat.setup_open || self.seat.is_duel_now() || self.ai_to_move() {
            return;
        }
        self.cursor = Some(pit);
        self.sow_at_cursor();
    }

    /// The restart button: a fresh board, except while a duel runs.
    pub fn restart(&mut self)
        requires
            old(self).wf(),
        ensures
            final(self).wf(),
            old(self).seat.is_duel() ==> *final(self) == *old(self),
            !old(self).seat.is_duel() ==> final(self).restarted(old(self).seat),
    {
        if !self.seat.is_duel_now() {
            self.reset();
        }
    }

    /// One computer sow: the pit the computer picks, the cursor following it.
    pub fn tick(&mut self)
        requires
            old(self).wf(),
        ensures
            final(self).wf(),
            final(self).seat == old(self).seat,
            final(self).ai_side == old(self).ai_side,
            !old(self).ai_turn() ==> *final(self) == *old(self),
            old(self).ai_turn() && legal_moves(old(self).engine).len() == 0 ==> {
                &&& final(self).engine == old(self).engine
                &&& final(self).cursor == normalized(old(self).engine, old(self).cursor)
            },
            old(self).ai_turn() && legal_moves(old(self).engine).len() > 0 ==> exists|p: usize|
                #![trigger legal_moves(old(self).engine).contains(p)]
                legal_moves(old(self).engine).contains(p) && old(self).engine.sowed(p, final(self).engine)
                    && final(self).cursor == normalized(final(self).engine, Some(p)),
    {
        if !self.ai_to_move() {
            return;
        }
        let difficulty = match self.seat.difficulty() {
            Some(d) => d,
            None => return,
        };
        match ai::best_move(&self.engine, difficulty) {
            Some(pit) => {
                proof {
                    lemma_nonempty_pits_contains(self.engine.pits_spec(), first_pit(self.engine.turn_spec()), 6);
                }
                let ok = self.engine.sow(pit);
                assert(ok);
                self.cursor = Some(pit);
            },
            None => {},
        }
        self.normalize_cursor();
    }
}

} // verus!

//! What a dots-and-boxes table does with keys, clicks and computer turns:
//! the picker, the edge cursor, and claiming edges.

use crate::dots::ai::{self, small_scores};
use crate::dots::engine::{Dots, EDGES, Side, open_upto};
use crate::game_core::seat::{Common, Key, Opponent, Seat};
use vstd::prelude::*;

verus! {

/// A game of dots and boxes with its table: the engine, the edge cursor,
/// the seats, and the side the computer plays.
pub struct DotsControl {
    pub engine: Dots,
    pub cursor: Option<usize>,
    pub seat: Seat,
    pub ai_side: Side,
}

/// Index of the first entry of `open` from `i` on that is above `c`.
pub open spec fn first_above(open: Seq<usize>, c: int, i: int) -> Option<int>
    decreases open.len() - i,
{
    if i < 0 || i >= open.len() {
        None
    } else if open[i] > c {
        Some(i)
    } else {
        first_above(open, c, i + 1)
    }
}

/// Index of the last entry of `open` before `n` that is below `c`.
pub open spec fn last_below(open: Seq<usize>, c: int, n: int) -> Option<int>
    decreases n,
{
    if n <= 0 || n > open.len() {
        None
    } else if open[n - 1] < c {
        Some(n - 1)
    } else {
        last_below(open, c, n - 1)
    }
}

/// The cursor moved to the next open edge after it (wrapping to the first)
/// or the last open edge before it (wrapping to the last).
pub open spec fn cycled(open: Seq<usize>, cursor: Option<usize>, forward: bool) -> Option<usize> {
    if open.len() == 0 {
        None
    } else {
        match cursor {
            None => Some(open[0]),
            Some(c) => if forward {
                match first_above(open, c as int, 0) {
                    Some(i) => Some(open[i]),
                    None => Some(open[0]),
                }
            } else {
                match last_below(open, c as int, open.len() as int) {
                    Some(i) => Some(open[i]),
                    None => Some(open[open.len() - 1]),
                }
            },
        }
    }
}

/// Claiming edge `e` as [`Dots::play`] does: nothing happens unless the
/// game is on and the edge is open.
pub open spec fn claimed_or_kept(old: Dots, e: int, new: Dots) -> bool {
    if old.status_spec() is Ongoing && 0 <= e < EDGES && old.edges_spec()[e] is None {
        old.claimed_edge(e as usize, new)
    } else {
        new == old
    }
}

impl DotsControl {
    pub open spec fn wf(self) -> bool {
        self.engine.wf() && self.seat.wf()
    }

    /// A computer player owns the position.
    pub open spec fn ai_turn(self) -> bool {
        !self.seat.setup_open && self.engine.status_spec() is Ongoing && match self.seat.opponent {
            Opponent::Human => false,
            Opponent::Ai(_) => self.engine.turn_spec() == self.ai_side,
            Opponent::Battle(_) => true,
        }
    }

    /// A fresh board behind the given seats, the cursor on the first edge.
    pub open spec fn restarted(self, seat: Seat) -> bool {
        &&& self.engine.fresh()
        &&& self.cursor == Some(0usize)
        &&& self.seat == Seat { quit: false, ..seat }
        &&& self.ai_side == Side::Black
    }

    /// What claiming at the cursor does: the edge under it is claimed when
    /// it is open.
    pub open spec fn claimed_at_cursor(self, new: DotsControl) -> bool {
        &&& new.seat == self.seat
        &&& new.ai_side == self.ai_side
        &&& new.cursor == self.cursor
        &&& match self.cursor {
            Some(e) => claimed_or_kept(self.engine, e as int, new.engine),
            None => new.engine == self.engine,
        }
    }

    /// The table after `key`; see [`DotsControl::handle_key`].
    pub open spec fn after_key(self, key: Key, new: DotsControl) -> bool {
        let (seat, common) = self.seat.after_key(key);
        let o = DotsControl { seat, ..self };
        let open = open_upto(o.engine.edges_spec(), EDGES as int);
        match common {
            Common::Start | Common::Menu | Common::Restart => new.restarted(seat),
            Common::Done => new == o,
            Common::Board(k) => if o.ai_turn() {
                new == o
            } else if k == Key::Left || k == Key::Up || k == Key::Char('h') || k == Key::Char('k') {
                new == DotsControl { cursor: cycled(open, o.cursor, false), ..o }
            } else if k == Key::Right || k == Key::Down || k == Key::Char('l') || k == Key::Char('j') {
                new == DotsControl { cursor: cycled(open, o.cursor, true), ..o }
            } else if k == Key::Enter || k == Key::Char(' ') {
                o.claimed_at_cursor(new)
            } else if k == Key::Char('R') {
                new.restarted(seat)
            } else {
                new == o
            },
        }
    }

    pub fn new() -> (c: Self)
        ensures
            c.wf(),
            c.restarted(Seat::new_spec()),
    {
        DotsControl { engine: Dots::new(), cursor: Some(0), seat: Seat::new(), ai_side: Side::Black }
    }

    fn reset(&mut self)
        requires
            old(self).seat.wf(),
        ensures
            final(self).wf(),
            final(self).restarted(old(self).seat),
    {
        self.engine = Dots::new();
        self.cursor = Some(0);
        self.seat.quit = false;
        self.ai_side = Side::Black;
    }

    pub fn ai_to_move(&self) -> (r: bool)
        ensures
            r == self.ai_turn(),
    {
        self.seat.ai_to_move(self.engine.status().is_ongoing(), self.engine.turn() == self.ai_side)
    }

    fn cycle_cursor(&mut self, forward: bool)
        requires
            old(self).wf(),
        ensures
            *final(self) == (DotsControl {
                cursor: cycled(open_upto(old(self).engine.edges_spec(), EDGES as int), old(self).cursor, forward),
                ..*old(self)
            }),
    {
        let open = self.engine.open_edges();
        let n = open.len();
        if n == 0 {
            self.cursor = None;
            return;
        }
        let c = match self.cursor {
            Some(c) => c,
            None => {
                self.cursor = Some(open[0]);
                return;
            },
        };
        if forward {
            let mut i: usize = 0;
            while i < n
                invariant
                    0 <= i <= n,
                    forward,
                    n > 0,
                    n == open@.len(),
                    *self == *old(self),
                    old(self).cursor == Some(c),
                    open@ == open_upto(old(self).engine.edges_spec(), EDGES as int),
                    first_above(open@, c as int, 0) == first_above(open@, c as int, i as int),
                decreases n - i,
            {
                if open[i] > c {
                    assert(first_above(open@, c as int, i as int) == Some(i as int));
                    self.cursor = Some(open[i]);
                    return;
                }
                i += 1;
            }
            assert(first_above(open@, c as int, n as int) is None);
            self.cursor = Some(open[0]);
        } else {
            let mut k: usize = n;
            while k > 0
                invariant
                    0 <= k <= n,
                    !forward,
                    n > 0,
                    n == open@.len(),
                    *self == *old(self),
                    old(self).cursor == Some(c),
                    open@ == open_upto(old(self).engine.edges_spec(), EDGES as int),
                    last_below(open@, c as int, n as int) == last_below(open@, c as int, k as int),
                decreases k,
            {
                if open[k - 1] < c {
                    assert(last_below(open@, c as int, k as int) == Some(k - 1));
                    self.cursor = Some(open[k - 1]);
                    return;
                }
                k -= 1;
            }
            assert(last_below(open@, c as int, 0) is None);
            self.cursor = Some(open[n - 1]);
        }
    }

    fn claim_at_cursor(&mut self)
        requires
            old(self).wf(),
        ensures
            final(self).wf(),
            old(self).claimed_at_cursor(*final(self)),
    {
        if let Some(e) = self.cursor {
            if self.engine.claimed(e).is_none() {
                let _ = self.engine.play(e);
            }
        }
    }

    /// Handles a key: the shared keys first (see [`Seat::after_key`]), then,
    /// unless the computer is to move, left and up step the cursor to the
    /// previous open edge, right and down to the next, enter or space claim
    /// the edge under the cursor, and `R` restarts.
    pub fn handle_key(&mut self, key: Key)
        requires
            old(self).wf(),
        ensures
            final(self).wf(),
            old(self).after_key(key, *final(self)),
    {
        let common = self.seat.key(key);
        match common {
            Common::Start | Common::Menu | Common::Restart => {
                self.reset();
            },
            Common::Done => {},
            Common::Board(k) => {
                if self.ai_to_move() {
                    return;
                }
                if k == Key::Left || k == Key::Up || k == Key::Char('h') || k == Key::Char('k') {
                    self.cycle_cursor(false);
                } else if k == Key::Right || k == Key::Down || k == Key::Char('l') || k == Key::Char('j') {
                    self.cycle_cursor(true);
                } else if k == Key::Enter || k == Key::Char(' ') {
                    self.claim_at_cursor();
                } else if k == Key::Char('R') {
                    self.reset();
                }
            },
        }
    }

    /// A click on edge `e`: unless the picker is open, a duel runs or the
    /// computer is to move, the cursor goes there and the edge is claimed.
    pub fn click_edge(&mut self, e: usize)
        requires
            old(self).wf(),
        ensures
            final(self).wf(),
            if old(self).seat.setup_open || old(self).seat.is_duel() || old(self).ai_turn() {
                *final(self) == *old(self)
            } else {
                (DotsControl { cursor: Some(e), ..*old(self) }).claimed_at_cursor(*final(self))
            },
    {
        if self.seat.setup_open || self.seat.is_duel_now() || self.ai_to_move() {
            return;
        }
        self.cursor = Some(e);
        self.claim_at_cursor();
    }

    /// The restart button: a fresh board, except while a duel runs.
    pub fn restart(&mut self)
        requires
            old(self).wf(),
        ensures
            final(self).wf(),
            old(self).seat.is_duel() ==> *final(self) == *old(self),
            !old(self).seat.is_duel() ==> final(self).restarted(old(self).seat),
    {
        if !self.seat.is_duel_now() {
            self.reset();
        }
    }

    /// One computer claim: the edge the computer picks, the cursor on it.
    /// Tallies beyond what any board can score leave the computer idle.
    pub fn tick(&mut self)
        requires
            old(self).wf(),
        ensures
            final(self).wf(),
            final(self).seat == old(self).seat,
            final(self).ai_side == old(self).ai_side,
            !(old(self).ai_turn() && small_scores(old(self).engine)) ==> *final(self) == *old(self),
            old(self).ai_turn() && small_scores(old(self).engine) ==> ({
                let open = open_upto(old(self).engine.edges_spec(), EDGES as int);
                &&& open.len() == 0 ==> *final(self) == *old(self)
                &&& open.len() > 0 ==> (final(self).cursor matches Some(e) && open.contains(e)
                    && old(self).engine.claimed_edge(e, final(self).engine))
            }),
    {
        if !self.ai_to_move() {
            return;
        }
        let difficulty = match self.seat.difficulty() {
            Some(d) => d,
            None => return,
        };
        if self.engine.score(Side::White) > 200_000_000 || self.engine.score(Side::Black) > 200_000_000 {
            return;
        }
        match ai::best_edge(&self.engine, difficulty) {
            Some(e) => {
                proof {
                    crate::dots::engine::lemma_open_upto_contains(self.engine.edges_spec(), EDGES as int);
                }
                let ok = self.engine.play(e);
                assert(ok);
                self.cursor = Some(e);
            },
            None => {},
        }
    }
}

} // verus!

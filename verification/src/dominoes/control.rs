//! What a dominoes table does with keys, clicks and computer turns: the
//! picker, the hand cursor, laying, drawing and passing.

use crate::dominoes::ai;
use crate::dominoes::engine::{Dominoes, Side, Status, dealt, pips_of};
use crate::dominoes::snapshot::{encode, save_of_text, save_text};
use crate::game_core::seat::{Common, Key, Seat};
use crate::random::seeded_rng;
use rand::rngs::StdRng;
use vstd::prelude::*;

verus! {

/// A game of dominoes with its table: the engine, the cursor on the
/// mover's hand, the seats, and the side the computer plays.
pub struct DominoesControl {
    pub engine: Dominoes,
    pub cursor: Option<usize>,
    pub seat: Seat,
    pub ai_side: Side,
    /// Seed of the generator behind the next deal; each deal steps it.
    pub rng_seed: u64,
}

/// The mover's yard draws until it can play or the yard is dry: `k` tiles
/// went from the end of the yard into the mover's hand, last one first.
pub open spec fn drew_until(old: Dominoes, new: Dominoes) -> bool {
    let mover = old.turn_spec();
    let yard = old.boneyard_spec();
    exists|k: int|
        #![trigger yard.take(k)]
        0 <= k <= yard.len() && new.boneyard_spec() == yard.take(yard.len() - k) && new.hand_of(mover)
            == old.hand_of(mover) + yard.skip(yard.len() - k).reverse() && new.hand_of(
            opposite_of_side(mover),
        ) == old.hand_of(opposite_of_side(mover)) && new.line_spec() == old.line_spec()
            && new.turn_spec() == mover && new.status_spec() == old.status_spec()
            && new.passes_spec() == old.passes_spec()
}

pub open spec fn opposite_of_side(s: Side) -> Side {
    match s {
        Side::White => Side::Black,
        Side::Black => Side::White,
    }
}

/// The mover must draw: nothing to lay while the yard holds tiles.
pub open spec fn must_draw_spec(g: Dominoes) -> bool {
    g.status_spec() is Ongoing && g.legal_spec().len() == 0 && g.boneyard_spec().len() > 0
}

/// Laying tile `idx` as [`Dominoes::play`] does: refused (nothing changes)
/// unless the tile is playable.
pub open spec fn played(old: Dominoes, idx: int, new: Dominoes) -> bool {
    if old.playable(idx) {
        old.laid(idx, false, new)
    } else {
        new == old
    }
}

/// Passing as [`Dominoes::pass`] does: refused unless nothing can be laid
/// and the yard is dry.
pub open spec fn passed_or_kept(old: Dominoes, new: Dominoes) -> bool {
    if old.status_spec() is Ongoing && old.legal_spec().len() == 0 && old.boneyard_spec().len() == 0 {
        old.passed(new)
    } else {
        new == old
    }
}

/// The hand cursor moved one tile on, wrapping (`None` for an empty hand).
pub open spec fn cycled(cursor: Option<usize>, n: int, forward: bool) -> Option<usize> {
    if n == 0 {
        None
    } else {
        let cur = match cursor {
            Some(c) => if c < n {
                c as int
            } else {
                n - 1
            },
            None => 0,
        };
        Some(
            (if forward {
                if cur + 1 == n {
                    0
                } else {
                    cur + 1
                }
            } else if cur == 0 {
                n - 1
            } else {
                cur - 1
            }) as usize,
        )
    }
}

impl DominoesControl {
    pub open spec fn wf(self) -> bool {
        self.engine.wf() && self.seat.wf()
    }

    /// A computer player owns the position.
    pub open spec fn ai_turn(self) -> bool {
        !self.seat.setup_open && self.engine.status_spec() is Ongoing && match self.seat.opponent {
            crate::game_core::seat::Opponent::Human => false,
            crate::game_core::seat::Opponent::Ai(_) => self.engine.turn_spec() == self.ai_side,
            crate::game_core::seat::Opponent::Battle(_) => true,
        }
    }

    /// A fresh deal behind the given seats, cursor on the first tile.
    pub open spec fn restarted(self, seat: Seat) -> bool {
        &&& dealt(self.engine)
        &&& self.cursor == Some(0usize)
        &&& self.seat == Seat { quit: false, ..seat }
        &&& self.ai_side == Side::Black
    }

    /// A table with the picker open.
    pub fn new() -> (c: Self)
        ensures
            c.wf(),
            c.restarted(Seat::new_spec()),
    {
        DominoesControl {
            engine: Dominoes::default(),
            cursor: Some(0),
            seat: Seat::new(),
            ai_side: Side::Black,
            rng_seed: 0xD0_0001,
        }
    }

    /// Steps the deal seed (`seed * 6364136223846793005 + 3`, wrapping)
    /// and hands out a generator seeded with the new value.
    fn next_rng(&mut self) -> (r: StdRng)
        ensures
            final(self).rng_seed == (old(self).rng_seed * 6364136223846793005 + 3) % 0x1_0000_0000_0000_0000,
            final(self).engine == old(self).engine,
            final(self).cursor == old(self).cursor,
            final(self).seat == old(self).seat,
            final(self).ai_side == old(self).ai_side,
    {
        self.rng_seed = self.rng_seed.wrapping_mul(6364136223846793005).wrapping_add(3);
        proof {
            assert((old(self).rng_seed * 6364136223846793005) % 0x1_0000_0000_0000_0000 + 3 < 0x1_0000_0000_0000_0000 * 2);
        }
        seeded_rng(self.rng_seed)
    }

    fn reset(&mut self)
        requires
            old(self).seat.wf(),
        ensures
            final(self).wf(),
            final(self).restarted(old(self).seat),
    {
        let mut rng = self.next_rng();
        self.engine = Dominoes::new(&mut rng);
        self.cursor = Some(0);
        self.seat.quit = false;
        self.ai_side = Side::Black;
    }

    pub fn ai_to_move(&self) -> (r: bool)
        ensures
            r == self.ai_turn(),
    {
        let ongoing = match self.engine.status() {
            Status::Ongoing => true,
            _ => false,
        };
        self.seat.ai_to_move(ongoing, self.engine.turn() == self.ai_side)
    }

    fn cycle_cursor(&mut self, forward: bool)
        ensures
            final(self).cursor == cycled(
                old(self).cursor,
                old(self).engine.hand_of(old(self).engine.turn_spec()).len() as int,
                forward,
            ),
            final(self).engine == old(self).engine,
            final(self).seat == old(self).seat,
            final(self).ai_side == old(self).ai_side,
            final(self).rng_seed == old(self).rng_seed,
    {
        let n = self.engine.hand(self.engine.turn()).len();
        if n == 0 {
            self.cursor = None;
            return;
        }
        let cur = match self.cursor {
            Some(c) => if c < n {
                c
            } else {
                n - 1
            },
            None => 0,
        };
        self.cursor = Some(
            if forward {
                if cur + 1 == n {
                    0
                } else {
                    cur + 1
                }
            } else if cur == 0 {
                n - 1
            } else {
                cur - 1
            },
        );
    }

    /// Draws while a draw is forced.
    pub fn draw_until_playable(&mut self)
        requires
            old(self).wf(),
        ensures
            final(self).wf(),
            drew_until(old(self).engine, final(self).engine),
            !must_draw_spec(final(self).engine),
            final(self).cursor == old(self).cursor,
            final(self).seat == old(self).seat,
            final(self).ai_side == old(self).ai_side,
            final(self).rng_seed == old(self).rng_seed,
    {
        let ghost g0 = self.engine;
        let ghost mover = g0.turn_spec();
        let ghost yard = g0.boneyard_spec();
        assert(yard.take(yard.len() - 0) =~= yard);
        assert(yard.skip(yard.len() - 0).reverse() =~= Seq::<crate::dominoes::engine::Tile>::empty());
        assert(g0.hand_of(mover) + Seq::<crate::dominoes::engine::Tile>::empty() =~= g0.hand_of(mover));
        assert(yard.take(0int) == yard.take(0int));
        let ghost c0 = self.cursor;
        let ghost s0 = self.seat;
        let ghost a0 = self.ai_side;
        let ghost r0 = self.rng_seed;
        while self.engine.must_draw()
            invariant
                self.engine.wf(),
                self.seat.wf(),
                self.cursor == c0,
                self.seat == s0,
                self.ai_side == a0,
                self.rng_seed == r0,
                g0.turn_spec() == mover,
                g0.boneyard_spec() == yard,
                drew_until(g0, self.engine),
            decreases self.engine.boneyard_spec().len(),
        {
            let ghost before = self.engine;
            let ghost k = choose|k: int|
                #![trigger yard.take(k)]
                0 <= k <= yard.len() && before.boneyard_spec() == yard.take(yard.len() - k) && before.hand_of(mover)
                    == g0.hand_of(mover) + yard.skip(yard.len() - k).reverse() && before.hand_of(
                    opposite_of_side(mover),
                ) == g0.hand_of(opposite_of_side(mover)) && before.line_spec() == g0.line_spec()
                    && before.turn_spec() == mover && before.status_spec() == g0.status_spec()
                    && before.passes_spec() == g0.passes_spec();
            let ok = self.engine.draw_one();
            assert(ok);
            proof {
                let k1 = k + 1;
                let t = before.boneyard_spec().last();
                assert(yard.take(yard.len() - k).last() == yard[yard.len() - k1]);
                assert(yard.take(yard.len() - k).drop_last() =~= yard.take(yard.len() - k1));
                assert(yard.skip(yard.len() - k1).reverse() =~= yard.skip(yard.len() - k).reverse().push(
                    yard[yard.len() - k1],
                ));
                assert(self.engine.hand_of(mover) =~= g0.hand_of(mover) + yard.skip(yard.len() - k1).reverse());
                assert(yard.take(k1) == yard.take(k1));
                match mover {
                    Side::White => {},
                    Side::Black => {},
                }
            }
        }
    }

    /// Handles a key: the shared keys first, then, unless the computer is
    /// to move, the hand cursor (left and right), laying the tile under the
    /// cursor (enter or space), drawing (`d`), passing (`p`) and restarting
    /// (`R`).
    pub fn handle_key(&mut self, key: Key)
        requires
            old(self).wf(),
        ensures
            final(self).wf(),
            ({
                let (seat, common) = old(self).seat.after_key(key);
                let busy = old(self).ai_turn();
                let g = old(self).engine;
                let hand_len = g.hand_of(g.turn_spec()).len() as int;
                match common {
                    Common::Start | Common::Menu | Common::Restart => final(self).restarted(seat),
                    Common::Done => *final(self) == DominoesControl { seat, ..*old(self) },
                    Common::Board(k) => if busy {
                        *final(self) == DominoesControl { seat, ..*old(self) }
                    } else if k == Key::Left || k == Key::Char('h') {
                        *final(self) == DominoesControl { seat, cursor: cycled(old(self).cursor, hand_len, false), ..*old(self) }
                    } else if k == Key::Right || k == Key::Char('l') {
                        *final(self) == DominoesControl { seat, cursor: cycled(old(self).cursor, hand_len, true), ..*old(self) }
                    } else if k == Key::Enter || k == Key::Char(' ') {
                        &&& final(self).seat == seat
                        &&& final(self).cursor == old(self).cursor
                        &&& final(self).ai_side == old(self).ai_side
                        &&& final(self).rng_seed == old(self).rng_seed
                        &&& match old(self).cursor {
                            Some(idx) => played(g, idx as int, final(self).engine),
                            None => final(self).engine == g,
                        }
                    } else if k == Key::Char('d') {
                        &&& final(self).seat == seat
                        &&& final(self).cursor == old(self).cursor
                        &&& final(self).ai_side == old(self).ai_side
                        &&& final(self).rng_seed == old(self).rng_seed
                        &&& drew_until(g, final(self).engine)
                        &&& !must_draw_spec(final(self).engine)
                    } else if k == Key::Char('p') {
                        &&& final(self).seat == seat
                        &&& final(self).cursor == old(self).cursor
                        &&& final(self).ai_side == old(self).ai_side
                        &&& final(self).rng_seed == old(self).rng_seed
                        &&& passed_or_kept(g, final(self).engine)
                    } else if k == Key::Char('R') {
                        final(self).restarted(seat)
                    } else {
                        *final(self) == DominoesControl { seat, ..*old(self) }
                    },
                }
            }),
    {
        let busy = self.ai_to_move();
        let common = self.seat.key(key);
        match common {
            Common::Start | Common::Menu | Common::Restart => {
                self.reset();
            },
            Common::Done => {},
            Common::Board(k) => {
                if busy {
                    return;
                }
                if k == Key::Left || k == Key::Char('h') {
                    self.cycle_cursor(false);
                } else if k == Key::Right || k == Key::Char('l') {
                    self.cycle_cursor(true);
                } else if k == Key::Enter || k == Key::Char(' ') {
                    if let Some(idx) = self.cursor {
                        let _ = self.engine.play(idx);
                    }
                } else if k == Key::Char('d') {
                    self.draw_until_playable();
                } else if k == Key::Char('p') {
                    let _ = self.engine.pass();
                } else if k == Key::Char('R') {
                    self.reset();
                }
            },
        }
    }

    /// A click on tile `idx` of the mover's hand: unless the computer is to
    /// move (or the picker is open, or a duel runs), the cursor goes there
    /// and the tile is laid if it can be.
    pub fn click_tile(&mut self, idx: usize)
        requires
            old(self).wf(),
        ensures
            final(self).wf(),
            if old(self).seat.setup_open || old(self).seat.is_duel() || old(self).ai_turn() {
                *final(self) == *old(self)
            } else {
                &&& final(self).cursor == Some(idx)
                &&& final(self).seat == old(self).seat
                &&& final(self).ai_side == old(self).ai_side
                &&& final(self).rng_seed == old(self).rng_seed
                &&& played(old(self).engine, idx as int, final(self).engine)
            },
    {
        if self.seat.setup_open || self.seat.is_duel_now() || self.ai_to_move() {
            return;
        }
        self.cursor = Some(idx);
        let _ = self.engine.play(idx);
    }

    /// The position as snapshot text (see [`encode`]); nothing while the
    /// picker is open.
    pub fn snapshot(&self) -> (r: Option<Vec<u8>>)
        ensures
            self.seat.setup_open ==> r is None,
            !self.seat.setup_open ==> (r matches Some(b) && b@ == save_text(
                self.engine.turn_spec(),
                self.engine.hand_of(Side::White),
                self.engine.hand_of(Side::Black),
                self.engine.boneyard_spec(),
                self.engine.line_spec(),
            )),
    {
        if self.seat.setup_open {
            None
        } else {
            Some(encode(&self.engine))
        }
    }

    /// Takes up a saved position (see [`Dominoes::restore_snapshot`]) and
    /// closes the picker; a refused blob changes nothing.
    pub fn restore(&mut self, blob: &[u8]) -> (ok: bool)
        requires
            old(self).wf(),
        ensures
            final(self).wf(),
            !ok ==> *final(self) == *old(self),
            ok ==> final(self).seat == (Seat { setup_open: false, ..old(self).seat }),
            ok ==> final(self).cursor == old(self).cursor,
            ok ==> final(self).ai_side == old(self).ai_side,
            final(self).rng_seed == old(self).rng_seed,
            ok == (save_of_text(blob@) matches Some(v) && pips_of(v.1) + pips_of(v.2) + pips_of(v.3)
                <= u16::MAX),
            ok ==> ({
                let v = save_of_text(blob@)->0;
                &&& final(self).engine.turn_spec() == v.0
                &&& final(self).engine.hand_of(Side::White) == v.1
                &&& final(self).engine.hand_of(Side::Black) == v.2
                &&& final(self).engine.boneyard_spec() == v.3
                &&& final(self).engine.line_spec() == v.4
            }),
    {
        if !self.engine.restore_snapshot(blob) {
            return false;
        }
        self.seat.setup_open = false;
        true
    }

    /// One computer action per call: a forced draw, a forced pass, or the
    /// tile the computer picks.
    pub fn tick(&mut self)
        requires
            old(self).wf(),
        ensures
            final(self).wf(),
            final(self).seat == old(self).seat,
            final(self).ai_side == old(self).ai_side,
            final(self).rng_seed == old(self).rng_seed,
            !old(self).ai_turn() ==> *final(self) == *old(self),
            old(self).ai_turn() && must_draw_spec(old(self).engine) ==> old(self).engine.drew(final(self).engine),
            old(self).ai_turn() && !must_draw_spec(old(self).engine) && old(self).engine.legal_spec().len() == 0
                ==> old(self).engine.passed(final(self).engine),
            old(self).ai_turn() && old(self).engine.legal_spec().len() > 0 ==> exists|idx: int|
                old(self).engine.playable(idx) && old(self).engine.laid(idx, false, final(self).engine),
    {
        if !self.ai_to_move() {
            return;
        }
        let difficulty = match self.seat.difficulty() {
            Some(d) => d,
            None => return,
        };
        if self.engine.must_draw() {
            let _ = self.engine.draw_one();
            return;
        }
        if self.engine.can_pass() {
            let _ = self.engine.pass();
            return;
        }
        match ai::best_move(&self.engine, difficulty) {
            Some(idx) => {
                self.cursor = Some(idx);
                let ghost g0 = self.engine;
                let _ = self.engine.play(idx);
                assert(g0.playable(idx as int) && g0.laid(idx as int, false, self.engine));
            },
            None => {},
        }
    }
}

} // verus!

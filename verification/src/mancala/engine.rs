//! Pure Kalah mancala: six pits and a store per side, counter-clockwise
//! sowing that skips the opponent's store, extra turns on store landings,
//! captures on empty-own-pit landings, and an end-of-game sweep.

use vstd::prelude::*;

verus! {

pub const PITS_PER_SIDE: usize = 6;

/// Pit indexing: 0..6 = White pits, 6 = White store, 7..13 = Black pits,
/// 13 = Black store.
pub const STORES: usize = 14;

#[derive(Clone, Copy, PartialEq, Eq, Debug, Structural)]
pub enum Side {
    White,
    Black,
}

pub open spec fn opposite_of(s: Side) -> Side {
    match s {
        Side::White => Side::Black,
        Side::Black => Side::White,
    }
}

/// Store index of `s`.
pub open spec fn store_index(s: Side) -> int {
    match s {
        Side::White => 6,
        Side::Black => 13,
    }
}

/// First pit index owned by `s`.
pub open spec fn first_pit(s: Side) -> int {
    match s {
        Side::White => 0,
        Side::Black => 7,
    }
}

/// `i` is one of the six pits of `s`.
pub open spec fn own_pit(s: Side, i: int) -> bool {
    first_pit(s) <= i < first_pit(s) + PITS_PER_SIDE
}

impl Side {
    pub fn opposite(self) -> (r: Self)
        ensures
            r == opposite_of(self),
    {
        match self {
            Side::White => Side::Black,
            Side::Black => Side::White,
        }
    }

    /// The six pit indices owned by this side.
    pub fn pit_range(self) -> (r: std::ops::Range<usize>)
        ensures
            r.start == first_pit(self),
            r.end == first_pit(self) + PITS_PER_SIDE,
    {
        match self {
            Side::White => 0..PITS_PER_SIDE,
            Side::Black => 7..7 + PITS_PER_SIDE,
        }
    }

    pub fn store(self) -> (r: usize)
        ensures
            r == store_index(self),
    {
        match self {
            Side::White => 6,
            Side::Black => 13,
        }
    }
}

#[derive(Clone, Copy, PartialEq, Eq, Debug, Structural)]
pub enum Status {
    Ongoing,
    Won(Side),
    Draw,
}

impl Status {
    pub fn is_ongoing(self) -> (r: bool)
        ensures
            r == (self is Ongoing),
    {
        match self {
            Status::Ongoing => true,
            _ => false,
        }
    }
}

/// Steps forward from `p` to reach `x` around the 14-slot ring: `1..=14`,
/// with `p` itself 14 steps away.
pub open spec fn hop(p: int, x: int) -> int {
    if x > p {
        x - p
    } else {
        x - p + 14
    }
}

/// Order in which slot `x` receives a seed when sowing from `p` while
/// skipping `skip`: `1` for the first seed, up to `13` (which is `p`).
pub open spec fn rank(p: int, skip: int, x: int) -> int {
    hop(p, x) - if hop(p, skip) < hop(p, x) {
        1int
    } else {
        0
    }
}

/// Seeds on every slot after `h = pits[p]` seeds are sown from `p`:
/// `p` is emptied, `skip` is untouched, and every other slot receives one
/// seed per full lap plus one more if it lies within the last partial lap.
pub open spec fn distributed(pits: Seq<u8>, p: int, skip: int) -> Seq<int> {
    let h = pits[p] as int;
    Seq::new(
        14,
        |j: int|
            if j == skip {
                pits[j] as int
            } else {
                (if j == p {
                    0
                } else {
                    pits[j] as int
                }) + h / 13 + if rank(p, skip, j) <= h % 13 {
                    1int
                } else {
                    0
                }
            },
    )
}

/// Slot receiving the last of `h` seeds sown from `p` (skipping `skip`).
pub open spec fn landing(p: int, skip: int, h: int) -> int {
    let k = if h % 13 == 0 {
        13
    } else {
        h % 13
    };
    let t = if hop(p, skip) <= k {
        k + 1
    } else {
        k
    };
    if p + t < 14 {
        p + t
    } else {
        p + t - 14
    }
}

/// Sum of the seeds in slots `lo..hi`.
pub open spec fn seed_sum(s: Seq<int>, lo: int, hi: int) -> int
    decreases hi - lo,
{
    if hi <= lo {
        0
    } else {
        seed_sum(s, lo, hi - 1) + s[hi - 1]
    }
}

/// The board after the optional capture on landing slot `x`: when the last
/// seed lands on a formerly empty own pit facing seeds, both go to the
/// mover's store.
pub open spec fn after_capture(d: Seq<int>, mover: Side, x: int) -> Seq<int> {
    if captures(d, mover, x) {
        d.update(12 - x, 0).update(x, 0).update(
            store_index(mover),
            d[store_index(mover)] + d[12 - x] + 1,
        )
    } else {
        d
    }
}

/// The capture condition on landing slot `x`.
pub open spec fn captures(d: Seq<int>, mover: Side, x: int) -> bool {
    own_pit(mover, x) && d[x] == 1 && d[12 - x] > 0
}

/// Either side's six pits are all empty.
pub open spec fn sweep_due(c: Seq<int>) -> bool {
    seed_sum(c, 0, 6) == 0 || seed_sum(c, 7, 13) == 0
}

/// The end-of-game sweep: every pit empties into its owner's store.
pub open spec fn swept(c: Seq<int>) -> Seq<int> {
    Seq::new(
        14,
        |j: int|
            if j == 6 {
                c[6] + seed_sum(c, 0, 6)
            } else if j == 13 {
                c[13] + seed_sum(c, 7, 13)
            } else {
                0
            },
    )
}

/// Result of a finished board: larger store wins.
pub open spec fn final_status(f: Seq<int>) -> Status {
    if f[6] > f[13] {
        Status::Won(Side::White)
    } else if f[6] < f[13] {
        Status::Won(Side::Black)
    } else {
        Status::Draw
    }
}

/// Own pits `first..first+n` holding seeds, in order.
pub open spec fn nonempty_pits(pits: Seq<u8>, first: int, n: int) -> Seq<usize>
    decreases n,
{
    if n <= 0 {
        Seq::empty()
    } else {
        nonempty_pits(pits, first, n - 1) + if pits[first + n - 1] > 0 {
            seq![(first + n - 1) as usize]
        } else {
            Seq::empty()
        }
    }
}

pub open spec fn to_int_seq(s: Seq<u8>) -> Seq<int> {
    Seq::new(s.len(), |i: int| s[i] as int)
}

#[derive(Clone, Copy)]
pub struct Mancala {
    pits: [u8; STORES],
    turn: Side,
    status: Status,
    last_sown: Option<usize>,
    captured_last: Option<(usize, usize)>,
}

/// Sows every seed of `pit` forward, one per slot, skipping `skip`;
/// returns the slot that received the last seed.
#[verifier::rlimit(40)]
#[verifier::spinoff_prover]
fn distribute(pits: &mut [u8; STORES], pit: usize, skip: usize) -> (i: usize)
    requires
        pit < STORES,
        skip < STORES,
        pit != skip,
        old(pits)@[pit as int] > 0,
        seed_sum(to_int_seq(old(pits)@), 0, 14) <= 255,
    ensures
        to_int_seq(final(pits)@) == distributed(old(pits)@, pit as int, skip as int),
        seed_sum(to_int_seq(final(pits)@), 0, 14) == seed_sum(to_int_seq(old(pits)@), 0, 14),
        i == landing(pit as int, skip as int, old(pits)@[pit as int] as int),
        i < STORES,
{
        let ghost old_pits = pits@;
        let ghost total = seed_sum(to_int_seq(old_pits), 0, 14);
        let hand0 = pits[pit];
        let mut hand = hand0;
        proof {
            lemma_sum_bounds(to_int_seq(old_pits), 0, 14);
            lemma_sum_update(to_int_seq(old_pits), 0, 14, pit as int, 0);
        }
        pits[pit] = 0;
        proof {
            assert(to_int_seq(pits@) =~= to_int_seq(old_pits).update(pit as int, 0));
        }
        let mut i = pit;
        let ghost mut laps: int = 0;
        let ghost mut part: int = 0;
        while hand > 0
            invariant
                0 <= hand <= hand0,
                hand0 == old_pits[pit as int],
                old_pits.len() == STORES,
                pit < STORES,
                skip < STORES,
                pit != skip,
                i < STORES,
                pits@.len() == STORES,
                seed_sum(to_int_seq(pits@), 0, 14) == total - hand,
                total <= 255,
                (hand0 - hand) as int == 13 * laps + part,
                0 <= part < 13,
                laps >= 0,
                forall|j: int|
                    0 <= j < 14 ==> #[trigger] pits@[j] == if j == skip {
                        old_pits[j] as int
                    } else {
                        (if j == pit {
                            0
                        } else {
                            old_pits[j] as int
                        }) + laps + if rank(pit as int, skip as int, j) <= part {
                            1int
                        } else {
                            0
                        }
                    },
                if part == 0 {
                    i == pit
                } else {
                    i != skip && rank(pit as int, skip as int, i as int) == part
                },
            decreases hand,
        {
            let mut next = if i == 13 {
                0
            } else {
                i + 1
            };
            if next == skip {
                next = if next == 13 {
                    0
                } else {
                    next + 1
                };
            }
            proof {
                lemma_next_rank(pit as int, skip as int, i as int, next as int, part);
                lemma_elem_le_sum(to_int_seq(pits@), 0, 14, next as int);
                lemma_sum_update(
                    to_int_seq(pits@),
                    0,
                    14,
                    next as int,
                    pits@[next as int] + 1,
                );
            }
            let ghost before = pits@;
            pits[next] = pits[next] + 1;
            i = next;
            hand = hand - 1;
            proof {
                assert(to_int_seq(pits@) =~= to_int_seq(before).update(
                    next as int,
                    before[next as int] + 1,
                ));
                let old_part = part;
                if part == 12 {
                    laps = laps + 1;
                    part = 0;
                } else {
                    part = part + 1;
                }
                assert forall|j: int| 0 <= j < 14 implies #[trigger] pits@[j] == if j == skip {
                    old_pits[j] as int
                } else {
                    (if j == pit {
                        0
                    } else {
                        old_pits[j] as int
                    }) + laps + if rank(pit as int, skip as int, j) <= part {
                        1int
                    } else {
                        0
                    }
                } by {
                    lemma_rank_range(pit as int, skip as int, j);
                    if j != next as int && j != skip {
                        lemma_rank_injective(pit as int, skip as int, j, next as int);
                    }
                }
            }
        }
        proof {
            let d = distributed(old_pits, pit as int, skip as int);
            vstd::arithmetic::div_mod::lemma_fundamental_div_mod_converse(
                hand0 as int,
                13,
                laps,
                part,
            );
            assert(to_int_seq(pits@) =~= d);
            lemma_landing(pit as int, skip as int, hand0 as int, i as int);
        }
    i
}

/// Mirror pit across the board (undefined for stores).
fn mirror(i: usize) -> (r: usize)
    requires
        i <= 12,
    ensures
        r == 12 - i,
{
    12 - i
}

impl Mancala {
    pub closed spec fn pits_spec(&self) -> Seq<u8> {
        self.pits@
    }

    pub closed spec fn turn_spec(&self) -> Side {
        self.turn
    }

    pub closed spec fn status_spec(&self) -> Status {
        self.status
    }

    pub closed spec fn last_sown_spec(&self) -> Option<usize> {
        self.last_sown
    }

    pub closed spec fn captured_last_spec(&self) -> Option<(usize, usize)> {
        self.captured_last
    }

    /// All seeds together fit in one `u8` pit, so no pit can overflow.
    pub open spec fn wf(&self) -> bool {
        self.pits_spec().len() == STORES && seed_sum(to_int_seq(self.pits_spec()), 0, 14) <= 255
    }

    /// `g` is this game after the mover sows `pit`: the seeds go round
    /// counter-clockwise skipping the opponent's store, a last seed in an
    /// empty own pit captures the seeds opposite, an emptied side sweeps
    /// the rest into its owner's store and ends the game, and the mover
    /// goes again when the last seed lands in its own store.
    pub open spec fn sowed(&self, pit: usize, g: Mancala) -> bool {
        let mover = self.turn_spec();
        let skip = store_index(opposite_of(mover));
        let h = self.pits_spec()[pit as int] as int;
        let x = landing(pit as int, skip, h);
        let d = distributed(self.pits_spec(), pit as int, skip);
        let c = after_capture(d, mover, x);
        &&& g.last_sown_spec() == Some(x as usize)
        &&& g.captured_last_spec() == if captures(d, mover, x) {
            Some(((12 - x) as usize, (d[12 - x] + 1) as usize))
        } else {
            None
        }
        &&& if sweep_due(c) {
            &&& to_int_seq(g.pits_spec()) == swept(c)
            &&& g.status_spec() == final_status(swept(c))
            &&& g.turn_spec() == mover
        } else {
            &&& to_int_seq(g.pits_spec()) == c
            &&& g.status_spec() == Status::Ongoing
            &&& g.turn_spec() == if x == store_index(mover) {
                mover
            } else {
                opposite_of(mover)
            }
        }
    }

    /// The opening position: four seeds in every pit, White to move.
    pub open spec fn fresh(&self) -> bool {
        &&& self.wf()
        &&& forall|i: int|
            0 <= i < STORES ==> #[trigger] self.pits_spec()[i] == if i == 6 || i == 13 {
                0u8
            } else {
                4u8
            }
        &&& self.turn_spec() == Side::White
        &&& self.status_spec() == Status::Ongoing
        &&& self.last_sown_spec() is None
        &&& self.captured_last_spec() is None
    }

    pub fn new() -> (g: Self)
        ensures
            g.wf(),
            forall|i: int|
                0 <= i < STORES ==> g.pits_spec()[i] == if i == 6 || i == 13 {
                    0u8
                } else {
                    4u8
                },
            g.turn_spec() == Side::White,
            g.status_spec() == Status::Ongoing,
            g.last_sown_spec() is None,
            g.captured_last_spec() is None,
    {
        let mut p = [0u8; STORES];
        let mut i: usize = 0;
        while i < STORES
            invariant
                0 <= i <= STORES,
                forall|j: int|
                    0 <= j < STORES ==> p@[j] == if j < i && j != 6 && j != 13 {
                        4u8
                    } else {
                        0u8
                    },
            decreases STORES - i,
        {
            p[i] = if i == 6 || i == 13 {
                0
            } else {
                4
            };
            i += 1;
        }
        let g = Mancala {
            pits: p,
            turn: Side::White,
            status: Status::Ongoing,
            last_sown: None,
            captured_last: None,
        };
        assert(seed_sum(to_int_seq(g.pits@), 0, 14) == 48) by {
            reveal_with_fuel(seed_sum, 15);
        }
        g
    }

    pub fn pit(&self, i: usize) -> (r: u8)
        ensures
            r == if i < STORES {
                self.pits_spec()[i as int]
            } else {
                0u8
            },
    {
        if i < STORES {
            self.pits[i]
        } else {
            0
        }
    }

    pub fn store_of(&self, side: Side) -> (r: u8)
        ensures
            r == self.pits_spec()[store_index(side)],
    {
        self.pits[side.store()]
    }

    pub fn turn(&self) -> (r: Side)
        ensures
            r == self.turn_spec(),
    {
        self.turn
    }

    pub fn status(&self) -> (r: Status)
        ensures
            r == self.status_spec(),
    {
        self.status
    }

    pub fn last_sown(&self) -> (r: Option<usize>)
        ensures
            r == self.last_sown_spec(),
    {
        self.last_sown
    }

    pub fn captured_last(&self) -> (r: Option<(usize, usize)>)
        ensures
            r == self.captured_last_spec(),
    {
        self.captured_last
    }

    /// Own pits holding at least one seed.
    pub fn legal_pits(&self) -> (r: Vec<usize>)
        ensures
            r@ == if self.status_spec() is Ongoing {
                nonempty_pits(self.pits_spec(), first_pit(self.turn_spec()), 6)
            } else {
                Seq::empty()
            },
    {
        if !self.status.is_ongoing() {
            return Vec::new();
        }
        let first = self.turn.pit_range().start;
        let mut out: Vec<usize> = Vec::new();
        let mut k: usize = 0;
        while k < PITS_PER_SIDE
            invariant
                0 <= k <= PITS_PER_SIDE,
                first == first_pit(self.turn),
                out@ == nonempty_pits(self.pits@, first as int, k as int),
            decreases PITS_PER_SIDE - k,
        {
            if self.pits[first + k] > 0 {
                out.push(first + k);
            }
            assert(out@ =~= nonempty_pits(self.pits@, first as int, k + 1));
            k += 1;
        }
        out
    }

    /// Sows from `pit`; false for wrong side, empty pit, or finished game.
    /// Handles store-extra-turn, captures, and the terminal sweep.
    #[verifier::rlimit(50)]
    pub fn sow(&mut self, pit: usize) -> (ok: bool)
        requires
            old(self).wf(),
        ensures
            final(self).wf(),
            ok == (old(self).status_spec() is Ongoing && own_pit(old(self).turn_spec(), pit as int)
                && old(self).pits_spec()[pit as int] > 0),
            !ok ==> *final(self) == *old(self),
            seed_sum(to_int_seq(final(self).pits_spec()), 0, 14) == seed_sum(
                to_int_seq(old(self).pits_spec()),
                0,
                14,
            ),
            ok ==> old(self).sowed(pit, *final(self)),
            ok == (old(self).status_spec() is Ongoing && nonempty_pits(
                old(self).pits_spec(),
                first_pit(old(self).turn_spec()),
                6,
            ).contains(pit)),
            ok ==> final(self).pits_spec()[store_index(old(self).turn_spec())] >= old(
                self,
            ).pits_spec()[store_index(old(self).turn_spec())],
            ok && final(self).status_spec() is Ongoing ==> final(self).pits_spec()[store_index(
                opposite_of(old(self).turn_spec()),
            )] == old(self).pits_spec()[store_index(opposite_of(old(self).turn_spec()))],
    {
        proof {
            lemma_nonempty_pits_contains(self.pits_spec(), first_pit(self.turn_spec()), 6);
        }
        let r = self.turn.pit_range();
        if !self.status.is_ongoing() || !(r.start <= pit && pit < r.end) || self.pits[pit] == 0 {
            return false;
        }
        let ghost old_pits = self.pits@;
        self.captured_last = None;
        let mover = self.turn;
        let skip = mover.opposite().store();
        let i = distribute(&mut self.pits, pit, skip);
        let ghost d = distributed(old_pits, pit as int, skip as int);
        let ghost hand0 = old_pits[pit as int];
        self.last_sown = Some(i);
        // Capture when the last seed lands in a formerly-empty own pit.
        let cap = r.start <= i && i < r.end && self.pits[i] == 1 && self.pits[mirror(i)] > 0;
        proof {
            assert(to_int_seq(self.pits@)[i as int] == self.pits@[i as int]);
            if i <= 12 {
                assert(to_int_seq(self.pits@)[12 - i] == self.pits@[12 - i]);
            }
            assert(cap == captures(d, mover, i as int));
        }
        if cap {
            let m = mirror(i);
            let st = mover.store();
            let ghost before = self.pits@;
            proof {
                lemma_capture_sum(to_int_seq(before), i as int, m as int, st as int);
                lemma_three_le_sum(to_int_seq(before), i as int, m as int, st as int);
            }
            assert(to_int_seq(before)[m as int] == before[m as int]);
            let taken = self.pits[m] + 1;
            self.pits[m] = 0;
            self.pits[i] = 0;
            self.pits[st] = self.pits[st] + taken;
            self.captured_last = Some((m, taken as usize));
            proof {
                assert(to_int_seq(self.pits@) =~= after_capture(d, mover, i as int));
            }
        }
        assert(self.captured_last == if captures(d, mover, i as int) {
            Some(((12 - i) as usize, (d[12 - i] + 1) as usize))
        } else {
            None::<(usize, usize)>
        });
        assert(i == landing(pit as int, skip as int, hand0 as int));
        let ghost c = after_capture(d, mover, i as int);
        assert(to_int_seq(self.pits@) =~= c);
        let extra_turn = i == mover.store();
        // Sweep when either side's pits run dry.
        let white_sum = self.side_sum(0);
        let black_sum = self.side_sum(7);
        if white_sum == 0 || black_sum == 0 {
            proof {
                lemma_sweep_bounds(c);
            }
            let ghost before = self.pits@;
            let ghost cl = self.captured_last;
            let mut p: usize = 0;
            while p < PITS_PER_SIDE
                invariant
                    0 <= p <= PITS_PER_SIDE,
                    self.pits@.len() == STORES,
                    self.captured_last == cl,
                    self.last_sown == Some(i),
                    self.turn == mover,
                    forall|j: int|
                        0 <= j < 14 ==> #[trigger] self.pits@[j] == if (0 <= j < p) || (7 <= j < 7
                            + p) {
                            0
                        } else {
                            before[j]
                        },
                decreases PITS_PER_SIDE - p,
            {
                self.pits[p] = 0;
                self.pits[7 + p] = 0;
                p += 1;
            }
            self.pits[6] = self.pits[6] + white_sum as u8;
            self.pits[13] = self.pits[13] + black_sum as u8;
            proof {
                assert(to_int_seq(self.pits@) =~= swept(c));
                lemma_swept_sum(c);
            }
            let (w, b) = (self.pits[6], self.pits[13]);
            self.status = if w > b {
                Status::Won(Side::White)
            } else if w < b {
                Status::Won(Side::Black)
            } else {
                Status::Draw
            };
            proof {
                law_sow_stores(*old(self), pit, *self);
            }
            return true;
        }
        if !extra_turn {
            self.turn = mover.opposite();
        }
        proof {
            law_sow_stores(*old(self), pit, *self);
        }
        true
    }

    /// Seeds in the six pits starting at `first` (0 for White, 7 for Black).
    fn side_sum(&self, first: usize) -> (r: u32)
        requires
            first == 0 || first == 7,
            self.pits@.len() == STORES,
        ensures
            r == seed_sum(to_int_seq(self.pits@), first as int, first + 6),
    {
        let mut s: u32 = 0;
        let mut k: usize = 0;
        while k < PITS_PER_SIDE
            invariant
                0 <= k <= PITS_PER_SIDE,
                first == 0 || first == 7,
                self.pits@.len() == STORES,
                s == seed_sum(to_int_seq(self.pits@), first as int, first + k),
                s <= 255 * k,
            decreases PITS_PER_SIDE - k,
        {
            s = s + self.pits[first + k] as u32;
            k += 1;
        }
        s
    }

    /// Directly sets a pit for constructing tactical positions.
    pub fn force_pit(&mut self, i: usize, seeds: u8)
        ensures
            final(self).pits_spec() == if i < STORES {
                old(self).pits_spec().update(i as int, seeds)
            } else {
                old(self).pits_spec()
            },
            final(self).turn_spec() == old(self).turn_spec(),
            final(self).status_spec() == old(self).status_spec(),
            final(self).last_sown_spec() == old(self).last_sown_spec(),
            final(self).captured_last_spec() == old(self).captured_last_spec(),
    {
        if i < STORES {
            self.pits[i] = seeds;
        }
    }

    /// Declares a finished result without touching stores.
    pub fn finish_into_win(&mut self, winner: Side)
        ensures
            final(self).pits_spec() == old(self).pits_spec(),
            final(self).turn_spec() == old(self).turn_spec(),
            final(self).status_spec() == Status::Won(winner),
            final(self).last_sown_spec() == old(self).last_sown_spec(),
            final(self).captured_last_spec() == old(self).captured_last_spec(),
    {
        self.status = Status::Won(winner);
    }
}

/// A sowing never takes seeds out of the mover's store, and while the game
/// goes on it leaves the opponent's store as it was.
pub proof fn law_sow_stores(g: Mancala, pit: usize, g2: Mancala)
    requires
        g.wf(),
        g.status_spec() is Ongoing,
        own_pit(g.turn_spec(), pit as int),
        g.pits_spec()[pit as int] > 0,
        g.sowed(pit, g2),
        g2.wf(),
    ensures
        g2.pits_spec()[store_index(g.turn_spec())] >= g.pits_spec()[store_index(g.turn_spec())],
        g2.status_spec() is Ongoing ==> g2.pits_spec()[store_index(opposite_of(g.turn_spec()))]
            == g.pits_spec()[store_index(opposite_of(g.turn_spec()))],
{
    let mover = g.turn_spec();
    let sm = store_index(mover);
    let skip = store_index(opposite_of(mover));
    let h = g.pits_spec()[pit as int] as int;
    let x = landing(pit as int, skip, h);
    let d = distributed(g.pits_spec(), pit as int, skip);
    let c = after_capture(d, mover, x);
    assert(forall|j: int| 0 <= j < 14 ==> #[trigger] d[j] >= 0);
    assert(d[sm] >= g.pits_spec()[sm]);
    assert(d[skip] == g.pits_spec()[skip]);
    assert(c[sm] >= d[sm] && c[skip] == d[skip]);
    assert(forall|j: int| 0 <= j < 14 ==> #[trigger] c[j] >= 0);
    assert(to_int_seq(g2.pits_spec())[sm] == g2.pits_spec()[sm]);
    assert(to_int_seq(g2.pits_spec())[skip] == g2.pits_spec()[skip]);
    if sweep_due(c) {
        lemma_sum_bounds(c, 0, 6);
        lemma_sum_bounds(c, 7, 13);
        assert(swept(c)[sm] >= c[sm]);
    }
}

/// [`nonempty_pits`] holds exactly the pits `first..first + n` with seeds.
pub proof fn lemma_nonempty_pits_contains(pits: Seq<u8>, first: int, n: int)
    requires
        0 <= first,
        0 <= n,
        first + n <= pits.len(),
        pits.len() == STORES,
    ensures
        forall|p: usize| #[trigger]
            nonempty_pits(pits, first, n).contains(p) <==> (first <= p < first + n && pits[p as int]
                > 0),
    decreases n,
{
    if n > 0 {
        lemma_nonempty_pits_contains(pits, first, n - 1);
        let prev = nonempty_pits(pits, first, n - 1);
        let s = nonempty_pits(pits, first, n);
        let tail = if pits[first + n - 1] > 0 {
            seq![(first + n - 1) as usize]
        } else {
            Seq::<usize>::empty()
        };
        assert(s == prev + tail);
        assert forall|p: usize| #[trigger] s.contains(p) <==> (first <= p < first + n
            && pits[p as int] > 0) by {
            if s.contains(p) {
                let k = choose|k: int| 0 <= k < s.len() && s[k] == p;
                if k < prev.len() {
                    assert(prev[k] == p);
                    assert(prev.contains(p));
                }
            }
            if first <= p < first + n && pits[p as int] > 0 {
                if p == first + n - 1 {
                    assert(s[prev.len() as int] == p);
                } else {
                    assert(prev.contains(p));
                    let k = choose|k: int| 0 <= k < prev.len() && prev[k] == p;
                    assert(s[k] == p);
                }
            }
        }
    }
}

/// A sowing has exactly one outcome: two positions that both follow `g` by
/// sowing `pit` are the same.
pub proof fn lemma_sowed_unique(g: Mancala, pit: usize, c1: Mancala, c2: Mancala)
    requires
        g.sowed(pit, c1),
        g.sowed(pit, c2),
        c1.wf(),
        c2.wf(),
    ensures
        c1 == c2,
{
    assert(to_int_seq(c1.pits@) == to_int_seq(c2.pits@));
    assert forall|i: int| 0 <= i < STORES implies c1.pits[i] == c2.pits[i] by {
        assert(to_int_seq(c1.pits@)[i] == to_int_seq(c2.pits@)[i]);
    }
    assert(c1.pits =~= c2.pits);
}

/// While the game is on, [`Mancala::legal_pits`] lists exactly the pits
/// from which [`Mancala::sow`] succeeds.
pub proof fn law_legal_pits_accept_sow(g: Mancala, pit: usize)
    requires
        g.wf(),
        g.status_spec() is Ongoing,
    ensures
        nonempty_pits(g.pits_spec(), first_pit(g.turn_spec()), 6).contains(pit) <==> (own_pit(
            g.turn_spec(),
            pit as int,
        ) && g.pits_spec()[pit as int] > 0),
{
    lemma_nonempty_pits_contains(g.pits_spec(), first_pit(g.turn_spec()), 6);
}

proof fn lemma_sum_bounds(s: Seq<int>, lo: int, hi: int)
    requires
        0 <= lo <= hi <= s.len(),
        forall|j: int| 0 <= j < s.len() ==> #[trigger] s[j] >= 0,
    ensures
        seed_sum(s, lo, hi) >= 0,
    decreases hi - lo,
{
    if hi > lo {
        lemma_sum_bounds(s, lo, hi - 1);
    }
}

proof fn lemma_elem_le_sum(s: Seq<int>, lo: int, hi: int, k: int)
    requires
        0 <= lo <= k < hi <= s.len(),
        forall|j: int| 0 <= j < s.len() ==> #[trigger] s[j] >= 0,
    ensures
        s[k] <= seed_sum(s, lo, hi),
    decreases hi - lo,
{
    lemma_sum_bounds(s, lo, hi - 1);
    if k < hi - 1 {
        lemma_elem_le_sum(s, lo, hi - 1, k);
    }
}

proof fn lemma_sum_update(s: Seq<int>, lo: int, hi: int, k: int, v: int)
    requires
        0 <= lo <= hi <= s.len(),
        0 <= k < s.len(),
    ensures
        seed_sum(s.update(k, v), lo, hi) == seed_sum(s, lo, hi) + if lo <= k < hi {
            v - s[k]
        } else {
            0
        },
    decreases hi - lo,
{
    if hi > lo {
        lemma_sum_update(s, lo, hi - 1, k, v);
    }
}

proof fn lemma_sum_split(s: Seq<int>, lo: int, mid: int, hi: int)
    requires
        0 <= lo <= mid <= hi <= s.len(),
    ensures
        seed_sum(s, lo, hi) == seed_sum(s, lo, mid) + seed_sum(s, mid, hi),
    decreases hi - mid,
{
    if hi > mid {
        lemma_sum_split(s, lo, mid, hi - 1);
    }
}

proof fn lemma_rank_range(p: int, skip: int, j: int)
    requires
        0 <= p < 14,
        0 <= skip < 14,
        0 <= j < 14,
        skip != p,
    ensures
        j != skip ==> 1 <= rank(p, skip, j) <= 13,
        rank(p, skip, p) == 13,
{
}

proof fn lemma_rank_injective(p: int, skip: int, a: int, b: int)
    requires
        0 <= p < 14,
        0 <= skip < 14,
        0 <= a < 14,
        0 <= b < 14,
        skip != p,
        a != skip,
        b != skip,
        a != b,
    ensures
        rank(p, skip, a) != rank(p, skip, b),
{
}

proof fn lemma_next_rank(p: int, skip: int, i: int, next: int, part: int)
    requires
        0 <= p < 14,
        0 <= skip < 14,
        skip != p,
        0 <= i < 14,
        0 <= part < 13,
        if part == 0 {
            i == p
        } else {
            i != skip && rank(p, skip, i) == part
        },
        next == if (if i == 13 { 0 } else { i + 1 }) == skip {
            if skip == 13 { 0 } else { skip + 1 }
        } else {
            if i == 13 { 0 } else { i + 1 }
        },
    ensures
        next != skip,
        0 <= next < 14,
        rank(p, skip, next) == part + 1,
        part == 12 ==> next == p,
{
}

proof fn lemma_landing(p: int, skip: int, h: int, i: int)
    requires
        0 <= p < 14,
        0 <= skip < 14,
        skip != p,
        0 <= i < 14,
        h >= 1,
        if h % 13 == 0 {
            i == p
        } else {
            i != skip && rank(p, skip, i) == h % 13
        },
    ensures
        i == landing(p, skip, h),
{
    let k = if h % 13 == 0 {
        13
    } else {
        h % 13
    };
    assert(1 <= k <= 13);
}

proof fn lemma_capture_sum(s: Seq<int>, i: int, m: int, st: int)
    requires
        s.len() == 14,
        0 <= i < 14,
        0 <= m < 14,
        0 <= st < 14,
        i != m,
        i != st,
        m != st,
        s[i] == 1,
    ensures
        seed_sum(s.update(m, 0).update(i, 0).update(st, s[st] + s[m] + 1), 0, 14) == seed_sum(
            s,
            0,
            14,
        ),
{
    lemma_sum_update(s, 0, 14, m, 0);
    lemma_sum_update(s.update(m, 0), 0, 14, i, 0);
    lemma_sum_update(s.update(m, 0).update(i, 0), 0, 14, st, s[st] + s[m] + 1);
}

proof fn lemma_three_le_sum(s: Seq<int>, a: int, b: int, c: int)
    requires
        s.len() == 14,
        0 <= a < 14,
        0 <= b < 14,
        0 <= c < 14,
        a != b,
        b != c,
        a != c,
        forall|j: int| 0 <= j < 14 ==> #[trigger] s[j] >= 0,
    ensures
        s[a] + s[b] + s[c] <= seed_sum(s, 0, 14),
{
    let t = s.update(a, 0).update(b, 0).update(c, 0);
    lemma_sum_update(s, 0, 14, a, 0);
    lemma_sum_update(s.update(a, 0), 0, 14, b, 0);
    lemma_sum_update(s.update(a, 0).update(b, 0), 0, 14, c, 0);
    lemma_sum_bounds(t, 0, 14);
}

proof fn lemma_sweep_bounds(c: Seq<int>)
    requires
        c.len() == 14,
        forall|j: int| 0 <= j < 14 ==> #[trigger] c[j] >= 0,
        seed_sum(c, 0, 14) <= 255,
    ensures
        c[6] + seed_sum(c, 0, 6) <= 255,
        c[13] + seed_sum(c, 7, 13) <= 255,
        c[6] + seed_sum(c, 0, 6) + c[13] + seed_sum(c, 7, 13) == seed_sum(c, 0, 14),
{
    lemma_sum_split(c, 0, 6, 14);
    lemma_sum_split(c, 6, 7, 14);
    lemma_sum_split(c, 7, 13, 14);
    reveal_with_fuel(seed_sum, 2);
    lemma_sum_bounds(c, 0, 6);
    lemma_sum_bounds(c, 7, 13);
    lemma_sum_bounds(c, 7, 14);
    lemma_sum_bounds(c, 0, 14);
}

proof fn lemma_swept_sum(c: Seq<int>)
    requires
        c.len() == 14,
        forall|j: int| 0 <= j < 14 ==> #[trigger] c[j] >= 0,
        seed_sum(c, 0, 14) <= 255,
    ensures
        seed_sum(swept(c), 0, 14) == seed_sum(c, 0, 14),
{
    lemma_sweep_bounds(c);
    let f = swept(c);
    lemma_sum_split(f, 0, 6, 14);
    lemma_sum_split(f, 6, 7, 14);
    lemma_sum_split(f, 7, 13, 14);
    lemma_zero_sum(f, 0, 6);
    lemma_zero_sum(f, 7, 13);
    reveal_with_fuel(seed_sum, 2);
}

proof fn lemma_zero_sum(s: Seq<int>, lo: int, hi: int)
    requires
        0 <= lo <= hi <= s.len(),
        forall|j: int| lo <= j < hi ==> #[trigger] s[j] == 0,
    ensures
        seed_sum(s, lo, hi) == 0,
    decreases hi - lo,
{
    if hi > lo {
        lemma_zero_sum(s, lo, hi - 1);
    }
}

} // verus!

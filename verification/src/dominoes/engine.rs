//! Pure draw-dominoes rules over a double-six set: matching ends, forced
//! draws from the boneyard, passing only when it is truly dry, domino wins
//! worth the opponent's pips, and block resolution by lower pip count.

use crate::random::{fresh_rng, shuffle_in};
use rand::rngs::StdRng;
use vstd::prelude::*;

verus! {

/// A tile with normalized halves (`a <= b`).
#[derive(Clone, Copy, PartialEq, Eq, Debug, Structural)]
pub struct Tile {
    pub a: u8,
    pub b: u8,
}

pub open spec fn tile_has(t: Tile, v: u8) -> bool {
    t.a == v || t.b == v
}

pub open spec fn tile_other(t: Tile, v: u8) -> u8 {
    if t.a == v {
        t.b
    } else {
        t.a
    }
}

impl Tile {
    pub fn pips(self) -> (r: u8)
        requires
            self.a + self.b <= u8::MAX,
        ensures
            r == self.a + self.b,
    {
        self.a + self.b
    }

    pub fn has(self, v: u8) -> (r: bool)
        ensures
            r == tile_has(self, v),
    {
        self.a == v || self.b == v
    }

    /// The half that is NOT `v` (for orienting onto an open end).
    pub fn other(self, v: u8) -> (r: u8)
        ensures
            r == tile_other(self, v),
    {
        if self.a == v {
            self.b
        } else {
            self.a
        }
    }
}

/// The double-six set in order: `0|0, 0|1, .., 0|6, 1|1, .., 6|6`.
pub open spec fn set_upto(a: int) -> Seq<Tile>
    decreases a,
{
    if a <= 0 {
        Seq::empty()
    } else {
        set_upto(a - 1) + Seq::new((7 - (a - 1)) as nat, |k: int| Tile { a: (a - 1) as u8, b: (a - 1 + k) as u8 })
    }
}

/// The full double-six set, 28 tiles.
pub fn full_set() -> (tiles: Vec<Tile>)
    ensures
        tiles@ == set_upto(7),
{
    let mut tiles: Vec<Tile> = Vec::new();
    let mut a: u8 = 0;
    while a <= 6
        invariant
            0 <= a <= 7,
            tiles@ == set_upto(a as int),
        decreases 7 - a,
    {
        let ghost before = tiles@;
        let mut b: u8 = a;
        while b <= 6
            invariant
                0 <= a <= 6,
                a <= b <= 7,
                tiles@ == before + Seq::new((b - a) as nat, |k: int| Tile { a: a, b: (a + k) as u8 }),
            decreases 7 - b,
        {
            tiles.push(Tile { a, b });
            proof {
                assert(Seq::new((b + 1 - a) as nat, |k: int| Tile { a: a, b: (a + k) as u8 }) =~= Seq::new(
                    (b - a) as nat,
                    |k: int| Tile { a: a, b: (a + k) as u8 },
                ).push(Tile { a, b }));
            }
            b += 1;
        }
        a += 1;
    }
    tiles
}

#[derive(Clone, Copy, PartialEq, Eq, Debug, Structural)]
pub enum Side {
    White,
    Black,
}

pub open spec fn opposite_of(s: Side) -> Side {
    match s {
        Side::White => Side::Black,
        Side::Black => Side::White,
    }
}

impl Side {
    pub fn opposite(self) -> (r: Self)
        ensures
            r == opposite_of(self),
    {
        match self {
            Side::White => Side::Black,
            Side::Black => Side::White,
        }
    }

    /// Board glyph: a hollow circle for White, a filled one for Black.
    pub fn symbol(self) -> (r: char)
        ensures
            r == match self {
                Side::White => '\u{25cb}',
                Side::Black => '\u{25cf}',
            },
    {
        match self {
            Side::White => '\u{25cb}',
            Side::Black => '\u{25cf}',
        }
    }
}

#[derive(Clone, Copy, PartialEq, Eq, Debug, Structural)]
pub enum Status {
    Ongoing,
    /// Winner plus the points awarded (opponent's leftover pips or the
    /// block margin).
    Won(Side, u16),
    Draw,
}

impl Status {
    pub fn is_ongoing(self) -> (r: bool)
        ensures
            r == (self is Ongoing),
    {
        match self {
            Status::Ongoing => true,
            _ => false,
        }
    }
}

/// Pips on the tiles of `s`.
pub open spec fn pips_of(s: Seq<Tile>) -> int
    decreases s.len(),
{
    if s.len() == 0 {
        0
    } else {
        pips_of(s.drop_last()) + s.last().a + s.last().b
    }
}

/// `(hand index, fits-left, fits-right)` for the tiles of `hand` from the
/// first `n` that match an end of a chain ending in `l` and `r`.
pub open spec fn fits_upto(hand: Seq<Tile>, l: u8, r: u8, n: int) -> Seq<(usize, bool, bool)>
    decreases n,
{
    if n <= 0 {
        Seq::empty()
    } else {
        let t = hand[n - 1];
        fits_upto(hand, l, r, n - 1) + if tile_has(t, l) || tile_has(t, r) {
            seq![((n - 1) as usize, tile_has(t, l), tile_has(t, r))]
        } else {
            Seq::empty()
        }
    }
}

/// The chain after laying `t`: an empty chain takes it as is; otherwise it
/// goes on the preferred end when it matches there, else on the other end,
/// turned so the matching half touches the chain.
pub open spec fn line_after(line: Seq<u8>, t: Tile, go_left: bool) -> Seq<u8> {
    if line.len() == 0 {
        seq![t.a, t.b]
    } else {
        let l = line[0];
        let r = line.last();
        if go_left {
            if tile_has(t, l) {
                seq![tile_other(t, l), l] + line
            } else {
                line + seq![r, tile_other(t, r)]
            }
        } else {
            if tile_has(t, r) {
                line + seq![r, tile_other(t, r)]
            } else {
                seq![tile_other(t, l), l] + line
            }
        }
    }
}

/// Every tile's halves add up without overflow.
pub open spec fn tiles_ok(s: Seq<Tile>) -> bool {
    forall|k: int| 0 <= k < s.len() ==> (#[trigger] s[k]).a + s[k].b <= u8::MAX
}

pub struct Dominoes {
    white: Vec<Tile>,
    black: Vec<Tile>,
    boneyard: Vec<Tile>,
    /// Laid halves in order; both ends are open for matching.
    line: Vec<u8>,
    turn: Side,
    status: Status,
    consecutive_passes: u8,
}

fn copy_tiles(c: &Vec<Tile>) -> (r: Vec<Tile>)
    ensures
        r@ == c@,
{
    let mut r: Vec<Tile> = Vec::new();
    let mut i: usize = 0;
    while i < c.len()
        invariant
            0 <= i <= c@.len(),
            r@ == c@.take(i as int),
        decreases c@.len() - i,
    {
        r.push(c[i]);
        assert(c@.take(i + 1) =~= c@.take(i as int).push(c@[i as int]));
        i += 1;
    }
    assert(c@.take(c@.len() as int) =~= c@);
    r
}

proof fn lemma_pips_concat(a: Seq<Tile>, b: Seq<Tile>)
    ensures
        pips_of(a + b) == pips_of(a) + pips_of(b),
    decreases b.len(),
{
    if b.len() > 0 {
        lemma_pips_concat(a, b.drop_last());
        assert((a + b).drop_last() =~= a + b.drop_last());
    } else {
        assert(a + b =~= a);
    }
}

proof fn lemma_pips_nonneg(s: Seq<Tile>)
    ensures
        pips_of(s) >= 0,
    decreases s.len(),
{
    if s.len() > 0 {
        lemma_pips_nonneg(s.drop_last());
    }
}

proof fn lemma_pips_remove(s: Seq<Tile>, i: int)
    requires
        0 <= i < s.len(),
    ensures
        pips_of(s) == pips_of(s.remove(i)) + s[i].a + s[i].b,
{
    assert(s =~= s.take(i) + seq![s[i]] + s.skip(i + 1));
    assert(s.remove(i) =~= s.take(i) + s.skip(i + 1));
    lemma_pips_concat(s.take(i) + seq![s[i]], s.skip(i + 1));
    lemma_pips_concat(s.take(i), seq![s[i]]);
    lemma_pips_concat(s.take(i), s.skip(i + 1));
    assert(pips_of(seq![s[i]]) == s[i].a + s[i].b) by {
        let one = seq![s[i]];
        assert(one.drop_last() =~= Seq::<Tile>::empty());
        assert(pips_of(one.drop_last()) == 0);
        assert(one.last() == s[i]);
    }
}

proof fn lemma_pips_bound(s: Seq<Tile>)
    requires
        forall|k: int| 0 <= k < s.len() ==> (#[trigger] s[k]).a <= 6 && s[k].b <= 6,
    ensures
        pips_of(s) <= 12 * s.len(),
    decreases s.len(),
{
    if s.len() > 0 {
        lemma_pips_bound(s.drop_last());
    }
}

proof fn lemma_set_small(a: int)
    requires
        0 <= a <= 7,
    ensures
        forall|k: int| 0 <= k < set_upto(a).len() ==> (#[trigger] set_upto(a)[k]).a <= 6 && set_upto(a)[k].b <= 6,
        a == 7 ==> set_upto(a).len() == 28,
    decreases a,
{
    if a > 0 {
        lemma_set_small(a - 1);
        let prev = set_upto(a - 1);
        let cur = set_upto(a);
        assert forall|k: int| 0 <= k < cur.len() implies (#[trigger] cur[k]).a <= 6 && cur[k].b <= 6 by {
            if k < prev.len() {
                assert(cur[k] == prev[k]);
            }
        }
    }
    if a == 7 {
        reveal_with_fuel(set_upto, 8);
    }
}

/// A fresh deal: the double-six set split seven, seven and fourteen between
/// the hands and the yard, White to open.
pub open spec fn dealt(g: Dominoes) -> bool {
    &&& g.wf()
    &&& (g.hand_of(Side::White) + g.hand_of(Side::Black) + g.boneyard_spec()).to_multiset()
        == set_upto(7).to_multiset()
    &&& g.hand_of(Side::White).len() == 7
    &&& g.hand_of(Side::Black).len() == 7
    &&& g.boneyard_spec().len() == 14
    &&& g.line_spec().len() == 0
    &&& g.turn_spec() == Side::White
    &&& g.status_spec() == Status::Ongoing
    &&& g.passes_spec() == 0
}

impl Default for Dominoes {
    /// A deal from a freshly seeded generator.
    fn default() -> (g: Self)
        ensures
            dealt(g),
    {
        let mut rng = fresh_rng();
        Dominoes::new(&mut rng)
    }
}

impl Dominoes {
    pub closed spec fn hand_of(&self, side: Side) -> Seq<Tile> {
        match side {
            Side::White => self.white@,
            Side::Black => self.black@,
        }
    }

    pub closed spec fn boneyard_spec(&self) -> Seq<Tile> {
        self.boneyard@
    }

    pub closed spec fn line_spec(&self) -> Seq<u8> {
        self.line@
    }

    pub closed spec fn turn_spec(&self) -> Side {
        self.turn
    }

    pub closed spec fn status_spec(&self) -> Status {
        self.status
    }

    pub closed spec fn passes_spec(&self) -> u8 {
        self.consecutive_passes
    }

    /// Tiles in hands and yard add up without overflow, and at most two
    /// passes have been made in a row.
    pub open spec fn wf(&self) -> bool {
        &&& self.pips_ok()
        &&& self.passes_spec() <= 2
        &&& self.status_spec() is Ongoing ==> self.passes_spec() <= 1
    }

    /// Tiles in hands and yard add up without overflow.
    pub open spec fn pips_ok(&self) -> bool {
        &&& tiles_ok(self.hand_of(Side::White))
        &&& tiles_ok(self.hand_of(Side::Black))
        &&& tiles_ok(self.boneyard_spec())
        &&& pips_of(self.hand_of(Side::White)) + pips_of(self.hand_of(Side::Black)) + pips_of(self.boneyard_spec())
            <= u16::MAX
    }

    /// What [`Dominoes::legal_moves`] lists.
    pub open spec fn legal_spec(&self) -> Seq<(usize, bool, bool)> {
        let hand = self.hand_of(self.turn_spec());
        if !(self.status_spec() is Ongoing) {
            Seq::empty()
        } else if self.line_spec().len() == 0 {
            Seq::new(hand.len(), |i: int| (i as usize, true, true))
        } else {
            fits_upto(hand, self.line_spec()[0], self.line_spec().last(), hand.len() as int)
        }
    }

    /// Deals 7 + 7 from a double-six set shuffled with `rng` and parks 14
    /// in the boneyard. White opens (house rule: no highest-double forcing).
    pub fn new(rng: &mut StdRng) -> (g: Self)
        ensures
            dealt(g),
    {
        let mut set = full_set();
        let ghost s0 = set@;
        shuffle_in(&mut set, rng);
        proof {
            lemma_set_small(7);
            s0.to_multiset_ensures();
            set@.to_multiset_ensures();
            assert(set@.len() == 28) by {
                assert(set@.to_multiset().len() == s0.to_multiset().len());
            }
            assert forall|k: int| 0 <= k < set@.len() implies (#[trigger] set@[k]).a <= 6 && set@[k].b <= 6 by {
                let x = set@[k];
                assert(set@.contains(x));
                assert(set@.to_multiset().count(x) > 0);
                assert(s0.contains(x));
            }
        }
        let ghost order = set@;
        let g = Self::deal(set);
        proof {
            assert(g.hand_of(Side::White) + g.hand_of(Side::Black) + g.boneyard_spec() =~= order);
        }
        g
    }

    /// Deals the tiles in the order `set` holds them: the first seven to
    /// White, the next seven to Black, the other fourteen to the boneyard
    /// in order; empty line, White to open.
    pub fn deal(set: Vec<Tile>) -> (g: Self)
        requires
            set@.len() == 28,
            forall|k: int| 0 <= k < set@.len() ==> (#[trigger] set@[k]).a <= 6 && set@[k].b <= 6,
        ensures
            g.wf(),
            g.hand_of(Side::White) == set@.take(7),
            g.hand_of(Side::Black) == set@.subrange(7, 14),
            g.boneyard_spec() == set@.subrange(14, 28),
            g.line_spec().len() == 0,
            g.turn_spec() == Side::White,
            g.status_spec() == Status::Ongoing,
            g.passes_spec() == 0,
    {
        let mut white: Vec<Tile> = Vec::new();
        let mut black: Vec<Tile> = Vec::new();
        let mut boneyard: Vec<Tile> = Vec::new();
        let mut i: usize = 0;
        while i < 28
            invariant
                0 <= i <= 28,
                set@.len() == 28,
                white@ == set@.take(if i < 7 { i as int } else { 7 }),
                black@ == if i < 7 { Seq::<Tile>::empty() } else { set@.subrange(7, if i < 14 { i as int } else { 14 }) },
                boneyard@ == if i < 14 { Seq::<Tile>::empty() } else { set@.subrange(14, i as int) },
            decreases 28 - i,
        {
            if i < 7 {
                white.push(set[i]);
                assert(set@.take(i + 1) =~= set@.take(i as int).push(set@[i as int]));
            } else if i < 14 {
                black.push(set[i]);
                assert(set@.subrange(7, i + 1) =~= set@.subrange(7, i as int).push(set@[i as int]));
            } else {
                boneyard.push(set[i]);
                assert(set@.subrange(14, i + 1) =~= set@.subrange(14, i as int).push(set@[i as int]));
            }
            i += 1;
        }
        let g = Dominoes {
            white,
            black,
            boneyard,
            line: Vec::new(),
            turn: Side::White,
            status: Status::Ongoing,
            consecutive_passes: 0,
        };
        proof {
            assert(white@ + black@ + boneyard@ =~= set@);
            lemma_pips_bound(set@);
            lemma_pips_concat(white@ + black@, boneyard@);
            lemma_pips_concat(white@, black@);
            assert forall|k: int| 0 <= k < white@.len() implies (#[trigger] white@[k]).a + white@[k].b <= u8::MAX by {
                assert(white@[k] == set@[k]);
            }
            assert forall|k: int| 0 <= k < black@.len() implies (#[trigger] black@[k]).a + black@[k].b <= u8::MAX by {
                assert(black@[k] == set@[k + 7]);
            }
            assert forall|k: int| 0 <= k < boneyard@.len() implies (#[trigger] boneyard@[k]).a + boneyard@[k].b <= u8::MAX by {
                assert(boneyard@[k] == set@[k + 14]);
            }
        }
        g
    }

    pub fn hand(&self, side: Side) -> (r: &[Tile])
        ensures
            r@ == self.hand_of(side),
    {
        match side {
            Side::White => self.white.as_slice(),
            Side::Black => self.black.as_slice(),
        }
    }

    pub fn boneyard_len(&self) -> (r: usize)
        ensures
            r == self.boneyard_spec().len(),
    {
        self.boneyard.len()
    }

    /// The remaining yard in draw order (the last tile is drawn first).
    pub fn boneyard_tiles(&self) -> (r: Vec<Tile>)
        ensures
            r@ == self.boneyard_spec(),
    {
        let mut out: Vec<Tile> = Vec::new();
        let mut i: usize = 0;
        while i < self.boneyard.len()
            invariant
                0 <= i <= self.boneyard@.len(),
                out@ == self.boneyard@.take(i as int),
            decreases self.boneyard@.len() - i,
        {
            out.push(self.boneyard[i]);
            assert(self.boneyard@.take(i + 1) =~= self.boneyard@.take(i as int).push(self.boneyard@[i as int]));
            i += 1;
        }
        assert(self.boneyard@.take(self.boneyard@.len() as int) =~= self.boneyard@);
        out
    }

    /// Full-state overwrite used by session restore: the game goes on with
    /// no pass pending.
    pub fn restore_state(&mut self, hands: [Vec<Tile>; 2], boneyard: Vec<Tile>, line: Vec<u8>, turn: Side)
        requires
            tiles_ok(hands@[0]@),
            tiles_ok(hands@[1]@),
            tiles_ok(boneyard@),
            pips_of(hands@[0]@) + pips_of(hands@[1]@) + pips_of(boneyard@) <= u16::MAX,
        ensures
            final(self).wf(),
            final(self).hand_of(Side::White) == hands@[0]@,
            final(self).hand_of(Side::Black) == hands@[1]@,
            final(self).boneyard_spec() == boneyard@,
            final(self).line_spec() == line@,
            final(self).turn_spec() == turn,
            final(self).status_spec() == Status::Ongoing,
            final(self).passes_spec() == 0,
    {
        self.white = copy_tiles(&hands[0]);
        self.black = copy_tiles(&hands[1]);
        self.boneyard = boneyard;
        self.line = line;
        self.turn = turn;
        self.status = Status::Ongoing;
        self.consecutive_passes = 0;
    }

    /// Sets up a position directly (hands, yard, chain, side to move).
    pub fn force_state(&mut self, hands: [Vec<Tile>; 2], boneyard: Vec<Tile>, line: Vec<u8>, turn: Side)
        requires
            tiles_ok(hands@[0]@),
            tiles_ok(hands@[1]@),
            tiles_ok(boneyard@),
            pips_of(hands@[0]@) + pips_of(hands@[1]@) + pips_of(boneyard@) <= u16::MAX,
        ensures
            final(self).wf(),
            final(self).hand_of(Side::White) == hands@[0]@,
            final(self).hand_of(Side::Black) == hands@[1]@,
            final(self).boneyard_spec() == boneyard@,
            final(self).line_spec() == line@,
            final(self).turn_spec() == turn,
            final(self).status_spec() == Status::Ongoing,
            final(self).passes_spec() == 0,
    {
        self.restore_state(hands, boneyard, line, turn);
    }

    /// Laid halves; pairs read as tiles left-to-right.
    pub fn line(&self) -> (r: &[u8])
        ensures
            r@ == self.line_spec(),
    {
        self.line.as_slice()
    }

    pub fn turn(&self) -> (r: Side)
        ensures
            r == self.turn_spec(),
    {
        self.turn
    }

    pub fn status(&self) -> (r: Status)
        ensures
            r == self.status_spec(),
    {
        self.status
    }

    /// Open pip values at both ends of the chain (None while empty).
    pub fn ends(&self) -> (r: (Option<u8>, Option<u8>))
        ensures
            self.line_spec().len() == 0 ==> r == (None::<u8>, None::<u8>),
            self.line_spec().len() > 0 ==> r == (Some(self.line_spec()[0]), Some(self.line_spec().last())),
    {
        if self.line.len() == 0 {
            (None, None)
        } else {
            (Some(self.line[0]), Some(self.line[self.line.len() - 1]))
        }
    }

    fn hand_pips(&self, side: Side) -> (r: u16)
        requires
            self.pips_ok(),
        ensures
            r == pips_of(self.hand_of(side)),
    {
        let hand = match side {
            Side::White => &self.white,
            Side::Black => &self.black,
        };
        proof {
            lemma_pips_nonneg(self.hand_of(Side::White));
            lemma_pips_nonneg(self.hand_of(Side::Black));
            lemma_pips_nonneg(self.boneyard_spec());
        }
        let mut sum: u16 = 0;
        let mut i: usize = 0;
        while i < hand.len()
            invariant
                0 <= i <= hand@.len(),
                hand@ == self.hand_of(side),
                tiles_ok(hand@),
                sum == pips_of(hand@.take(i as int)),
                pips_of(hand@) <= u16::MAX,
            decreases hand@.len() - i,
        {
            proof {
                assert(hand@.take(i + 1).drop_last() =~= hand@.take(i as int));
                lemma_pips_concat(hand@.take(i + 1), hand@.skip(i + 1));
                assert(hand@.take(i + 1) + hand@.skip(i + 1) =~= hand@);
                lemma_pips_nonneg(hand@.skip(i + 1));
            }
            let t = hand[i];
            sum = sum + t.pips() as u16;
            i += 1;
        }
        assert(hand@.take(hand@.len() as int) =~= hand@);
        sum
    }
}

/// Entry `(i, left, right)` is listed by `fits_upto` exactly when tile `i`
/// (below `n`) matches an end, with `left`/`right` telling which.
/// Every move [`Dominoes::legal_moves`] lists is playable and carries the
/// fit flags of its tile; laying it with a preference for the left end
/// extends the chain where the flags and the preference say, takes the tile
/// from the hand, and either ends the game for the mover or passes the turn.
pub proof fn law_play_on_follows_flags(g: Dominoes, j: int, prefer_left: bool, g2: Dominoes)
    requires
        g.wf(),
        g.hand_of(g.turn_spec()).len() <= usize::MAX,
        0 <= j < g.legal_spec().len(),
        g.laid(g.legal_spec()[j].0 as int, prefer_left, g2),
    ensures
        ({
            let (idx, fl, fr) = g.legal_spec()[j];
            let mover = g.turn_spec();
            let hand = g.hand_of(mover);
            let t = hand[idx as int];
            let line = g.line_spec();
            &&& g.playable(idx as int)
            &&& fl == (line.len() == 0 || tile_has(t, line[0]))
            &&& fr == (line.len() == 0 || tile_has(t, line.last()))
            &&& g2.line_spec() == if line.len() == 0 {
                seq![t.a, t.b]
            } else if (prefer_left && fl) || !fr {
                seq![tile_other(t, line[0]), line[0]] + line
            } else {
                line + seq![line.last(), tile_other(t, line.last())]
            }
            &&& g2.hand_of(mover) == hand.remove(idx as int)
            &&& if hand.remove(idx as int).len() == 0 {
                g2.status_spec() == Status::Won(mover, pips_of(g.hand_of(opposite_of(mover))) as u16)
                    && g2.turn_spec() == mover
            } else {
                g2.turn_spec() == opposite_of(mover)
            }
        }),
{
    g.lemma_legal_playable();
    let hand = g.hand_of(g.turn_spec());
    let line = g.line_spec();
    if line.len() > 0 {
        lemma_fits(hand, line[0], line.last(), hand.len() as int, 0);
        assert(g.legal_spec() == fits_upto(hand, line[0], line.last(), hand.len() as int));
    }
}

/// The moves on offer: none once the game is over; every tile, fitting both
/// ends, on an empty line; otherwise exactly the tiles that carry a pip of
/// either end, by increasing hand index, each with whether it fits the left
/// and the right end.
pub proof fn law_legal_moves_listed(g: Dominoes)
    requires
        g.hand_of(g.turn_spec()).len() <= usize::MAX,
    ensures
        ({
            let hand = g.hand_of(g.turn_spec());
            let moves = g.legal_spec();
            let line = g.line_spec();
            &&& !(g.status_spec() is Ongoing) ==> moves.len() == 0
            &&& g.status_spec() is Ongoing && line.len() == 0 ==> moves.len() == hand.len() && forall|i: int|
                0 <= i < hand.len() ==> #[trigger] moves[i] == (i as usize, true, true)
            &&& g.status_spec() is Ongoing && line.len() > 0 ==> {
                &&& forall|k: int|
                    0 <= k < moves.len() ==> {
                        let e = #[trigger] moves[k];
                        &&& e.0 < hand.len()
                        &&& e.1 == tile_has(hand[e.0 as int], line[0])
                        &&& e.2 == tile_has(hand[e.0 as int], line.last())
                        &&& (e.1 || e.2)
                    }
                &&& forall|a: int, b: int|
                    0 <= a < b < moves.len() ==> #[trigger] moves[a].0 < #[trigger] moves[b].0
                &&& forall|i: int|
                    0 <= i < hand.len() && (tile_has(hand[i], line[0]) || tile_has(hand[i], line.last()))
                        ==> exists|k: int| 0 <= k < moves.len() && #[trigger] moves[k].0 == i as usize
            }
        }),
{
    let hand = g.hand_of(g.turn_spec());
    let line = g.line_spec();
    if g.status_spec() is Ongoing && line.len() > 0 {
        let n = hand.len() as int;
        lemma_fits(hand, line[0], line.last(), n, 0);
        let moves = g.legal_spec();
        assert forall|i: int|
            0 <= i < hand.len() && (tile_has(hand[i], line[0]) || tile_has(hand[i], line.last())) implies exists|k: int|
            0 <= k < moves.len() && #[trigger] moves[k].0 == i as usize by {
            lemma_fits(hand, line[0], line.last(), n, i);
        }
    }
}

proof fn lemma_fits(hand: Seq<Tile>, l: u8, r: u8, n: int, i: int)
    requires
        0 <= n <= hand.len(),
        n <= usize::MAX,
    ensures
        (exists|k: int| 0 <= k < fits_upto(hand, l, r, n).len() && fits_upto(hand, l, r, n)[k].0 == i as usize && 0 <= i < n)
            <==> (0 <= i < n && (tile_has(hand[i], l) || tile_has(hand[i], r))),
        forall|k: int|
            0 <= k < fits_upto(hand, l, r, n).len() ==> {
                let e = #[trigger] fits_upto(hand, l, r, n)[k];
                &&& e.0 < n
                &&& e.1 == tile_has(hand[e.0 as int], l)
                &&& e.2 == tile_has(hand[e.0 as int], r)
                &&& (e.1 || e.2)
            },
        forall|a: int, b: int|
            0 <= a < b < fits_upto(hand, l, r, n).len() ==> #[trigger] fits_upto(hand, l, r, n)[a].0
                < #[trigger] fits_upto(hand, l, r, n)[b].0,
    decreases n,
{
    if n > 0 {
        lemma_fits(hand, l, r, n - 1, i);
        let prev = fits_upto(hand, l, r, n - 1);
        let cur = fits_upto(hand, l, r, n);
        assert forall|k: int| 0 <= k < prev.len() implies cur[k] == prev[k] by {}
        if 0 <= i < n - 1 && (tile_has(hand[i], l) || tile_has(hand[i], r)) {
            let k = choose|k: int| 0 <= k < prev.len() && prev[k].0 == i as usize && 0 <= i < n - 1;
            assert(cur[k] == prev[k]);
        }
        if i == n - 1 && (tile_has(hand[i], l) || tile_has(hand[i], r)) {
            assert(cur[cur.len() - 1].0 == i as usize);
        }
        if exists|k: int| 0 <= k < cur.len() && cur[k].0 == i as usize && 0 <= i < n {
            let k = choose|k: int| 0 <= k < cur.len() && cur[k].0 == i as usize && 0 <= i < n;
            if k < prev.len() {
                assert(prev[k] == cur[k]);
            }
        }
        assert forall|k: int| 0 <= k < cur.len() implies {
            let e = #[trigger] cur[k];
            &&& e.0 < n
            &&& e.1 == tile_has(hand[e.0 as int], l)
            &&& e.2 == tile_has(hand[e.0 as int], r)
            &&& (e.1 || e.2)
        } by {
            if k < prev.len() {
                assert(cur[k] == prev[k]);
            }
        }
        assert forall|a: int, b: int| 0 <= a < b < cur.len() implies #[trigger] cur[a].0 < #[trigger] cur[b].0 by {
            if b < prev.len() {
                assert(cur[a] == prev[a] && cur[b] == prev[b]);
            } else {
                assert(cur[a] == prev[a]);
            }
        }
    }
}

impl Dominoes {
    /// Tile `idx` of the mover's hand can be laid: the game is live and the
    /// chain is empty or the tile matches one of its ends.
    pub open spec fn playable(&self, idx: int) -> bool {
        let hand = self.hand_of(self.turn_spec());
        let line = self.line_spec();
        &&& self.status_spec() is Ongoing
        &&& 0 <= idx < hand.len()
        &&& (line.len() == 0 || tile_has(hand[idx], line[0]) || tile_has(hand[idx], line.last()))
    }

    /// Every listed move is a playable tile, with its fit flags, and every
    /// playable tile is listed.
    pub proof fn lemma_legal_playable(&self)
        requires
            self.wf(),
            self.hand_of(self.turn_spec()).len() <= usize::MAX,
        ensures
            forall|j: int| 0 <= j < self.legal_spec().len() ==> self.playable((#[trigger] self.legal_spec()[j]).0 as int),
            forall|j: int| 0 <= j < self.legal_spec().len() ==> (#[trigger] self.legal_spec()[j]).0 < self.hand_of(self.turn_spec()).len(),
            forall|i: int| self.playable(i) ==> exists|j: int| 0 <= j < self.legal_spec().len() && #[trigger] self.legal_spec()[j].0 == i as usize,
    {
        let hand = self.hand_of(self.turn_spec());
        let line = self.line_spec();
        if self.status_spec() is Ongoing && line.len() > 0 {
            assert(self.legal_spec() == fits_upto(hand, line[0], line.last(), hand.len() as int));
            lemma_fits(hand, line[0], line.last(), hand.len() as int, 0);
            assert forall|i: int| self.playable(i) implies exists|j: int| 0 <= j < self.legal_spec().len() && #[trigger] self.legal_spec()[j].0 == i as usize by {
                lemma_fits(hand, line[0], line.last(), hand.len() as int, i);
            }
        }
        if self.status_spec() is Ongoing && line.len() == 0 {
            assert forall|j: int| 0 <= j < self.legal_spec().len() implies self.playable((#[trigger] self.legal_spec()[j]).0 as int) by {
                assert(self.legal_spec()[j].0 == j as usize);
            }
            assert forall|i: int| self.playable(i) implies exists|j: int| 0 <= j < self.legal_spec().len() && #[trigger] self.legal_spec()[j].0 == i as usize by {
                assert(self.legal_spec()[i].0 == i as usize);
            }
        }
    }

    /// `(hand index, fits-left, fits-right)` for every playable tile, by
    /// hand index.
    pub fn legal_moves(&self) -> (out: Vec<(usize, bool, bool)>)
        ensures
            out@ == self.legal_spec(),
    {
        let mut out: Vec<(usize, bool, bool)> = Vec::new();
        if !self.status.is_ongoing() {
            return out;
        }
        let hand = match self.turn {
            Side::White => &self.white,
            Side::Black => &self.black,
        };
        let (l, r) = self.ends();
        let mut i: usize = 0;
        match (l, r) {
            (Some(l), Some(r)) => {
                while i < hand.len()
                    invariant
                        0 <= i <= hand@.len(),
                        out@ == fits_upto(hand@, l, r, i as int),
                    decreases hand@.len() - i,
                {
                    let t = hand[i];
                    let left = t.has(l);
                    let right = t.has(r);
                    if left || right {
                        out.push((i, left, right));
                    }
                    i += 1;
                }
            },
            _ => {
                // Empty board: everything plays.
                while i < hand.len()
                    invariant
                        0 <= i <= hand@.len(),
                        out@ == Seq::new(i as nat, |k: int| (k as usize, true, true)),
                    decreases hand@.len() - i,
                {
                    out.push((i, true, true));
                    assert(Seq::new((i + 1) as nat, |k: int| (k as usize, true, true)) =~= Seq::new(
                        i as nat,
                        |k: int| (k as usize, true, true),
                    ).push((i, true, true)));
                    i += 1;
                }
            },
        }
        out
    }

    /// The mover has nothing to play but the yard still holds tiles.
    pub fn must_draw(&self) -> (r: bool)
        ensures
            r == (self.status_spec() is Ongoing && self.legal_spec().len() == 0 && self.boneyard_spec().len() > 0),
    {
        self.status.is_ongoing() && self.legal_moves().len() == 0 && self.boneyard.len() > 0
    }

    /// The mover has nothing to play and the yard is dry.
    pub fn can_pass(&self) -> (r: bool)
        ensures
            r == (self.status_spec() is Ongoing && self.legal_spec().len() == 0 && self.boneyard_spec().len() == 0),
    {
        self.status.is_ongoing() && self.legal_moves().len() == 0 && self.boneyard.len() == 0
    }

    /// The state after the mover drew the last yard tile into its hand;
    /// everything else stays.
    pub open spec fn drew(&self, g: Dominoes) -> bool {
        let mover = self.turn_spec();
        let yard = self.boneyard_spec();
        &&& g.boneyard_spec() == yard.drop_last()
        &&& g.hand_of(mover) == self.hand_of(mover).push(yard.last())
        &&& g.hand_of(opposite_of(mover)) == self.hand_of(opposite_of(mover))
        &&& g.line_spec() == self.line_spec()
        &&& g.turn_spec() == mover
        &&& g.status_spec() == self.status_spec()
        &&& g.passes_spec() == self.passes_spec()
    }

    /// Pulls the last yard tile into the mover's hand; the turn does not
    /// advance on draws. Refused unless a draw is forced.
    pub fn draw_one(&mut self) -> (ok: bool)
        requires
            old(self).wf(),
        ensures
            final(self).wf(),
            ok == (old(self).status_spec() is Ongoing && old(self).legal_spec().len() == 0
                && old(self).boneyard_spec().len() > 0),
            !ok ==> *final(self) == *old(self),
            ok ==> old(self).drew(*final(self)),
    {
        if !self.must_draw() {
            return false;
        }
        let ghost yard = self.boneyard@;
        let ghost w0 = self.white@;
        let ghost b0 = self.black@;
        match self.boneyard.pop() {
            Some(t) => {
                proof {
                    assert(yard =~= yard.drop_last().push(t));
                    lemma_pips_concat(yard.drop_last(), seq![t]);
                    assert(seq![t].drop_last() =~= Seq::<Tile>::empty());
                }
                match self.turn {
                    Side::White => {
                        self.white.push(t);
                        proof {
                            assert(self.white@.drop_last() =~= w0);
                        }
                    },
                    Side::Black => {
                        self.black.push(t);
                        proof {
                            assert(self.black@.drop_last() =~= b0);
                        }
                    },
                }
                true
            },
            None => false,
        }
    }

    /// Plays hand tile `idx`, auto-orienting onto whichever end matches.
    pub fn play(&mut self, idx: usize) -> (ok: bool)
        requires
            old(self).wf(),
        ensures
            final(self).wf(),
            ok == old(self).playable(idx as int),
            !ok ==> *final(self) == *old(self),
            ok ==> old(self).laid(idx as int, false, *final(self)),
    {
        self.play_on(idx, false)
    }

    /// The state after laying tile `idx` of the mover's hand: it goes on the
    /// left end when `prefer_left` and it fits there or when it does not fit
    /// on the right; emptying the hand wins the opponent's leftover pips,
    /// otherwise the turn passes.
    pub open spec fn laid(&self, idx: int, prefer_left: bool, g: Dominoes) -> bool {
        let mover = self.turn_spec();
        let hand = self.hand_of(mover);
        let line = self.line_spec();
        let t = hand[idx];
        let fits_left = line.len() == 0 || tile_has(t, line[0]);
        let fits_right = line.len() == 0 || tile_has(t, line.last());
        let go_left = (prefer_left && fits_left) || !fits_right;
        let rest = hand.remove(idx);
        &&& g.hand_of(mover) == rest
        &&& g.hand_of(opposite_of(mover)) == self.hand_of(opposite_of(mover))
        &&& g.boneyard_spec() == self.boneyard_spec()
        &&& g.line_spec() == line_after(line, t, go_left)
        &&& g.passes_spec() == 0
        &&& if rest.len() == 0 {
            g.status_spec() == Status::Won(mover, pips_of(self.hand_of(opposite_of(mover))) as u16)
                && g.turn_spec() == mover
        } else {
            g.status_spec() == self.status_spec() && g.turn_spec() == opposite_of(mover)
        }
    }

    /// Like [`Dominoes::play`] but prefers the LEFT end when `prefer_left`.
    pub fn play_on(&mut self, idx: usize, prefer_left: bool) -> (ok: bool)
        requires
            old(self).wf(),
        ensures
            final(self).wf(),
            ok == old(self).playable(idx as int),
            !ok ==> *final(self) == *old(self),
            ok ==> old(self).laid(idx as int, prefer_left, *final(self)),
    {
        if !self.status.is_ongoing() {
            return false;
        }
        let legal = self.legal_moves();
        let hand_len = match self.turn {
            Side::White => self.white.len(),
            Side::Black => self.black.len(),
        };
        let ghost hand0 = self.hand_of(self.turn);
        let ghost line0 = self.line@;
        proof {
            if line0.len() > 0 {
                lemma_fits(hand0, line0[0], line0.last(), hand0.len() as int, idx as int);
            }
        }
        let mut k: usize = 0;
        let mut found: Option<(bool, bool)> = None;
        while k < legal.len()
            invariant
                0 <= k <= legal@.len(),
                legal@ == self.legal_spec(),
                found is None ==> forall|j: int| 0 <= j < k ==> legal@[j].0 != idx,
                found matches Some(f) ==> exists|j: int| 0 <= j < legal@.len() && legal@[j] == (idx, f.0, f.1),
            decreases legal@.len() - k,
        {
            if found.is_none() && legal[k].0 == idx {
                found = Some((legal[k].1, legal[k].2));
            }
            k += 1;
        }
        let (fits_left, fits_right) = match found {
            Some(f) => f,
            None => {
                proof {
                    if line0.len() == 0 && 0 <= idx < hand0.len() {
                        assert(legal@[idx as int].0 == idx);
                    }
                }
                return false;
            },
        };
        let go_left = prefer_left && fits_left || !fits_right;
        let mover_side = self.turn;
        let ghost other0 = self.hand_of(opposite_of(mover_side));
        let ghost yard0 = self.boneyard@;
        proof {
            lemma_pips_remove(hand0, idx as int);
            lemma_pips_nonneg(hand0.remove(idx as int));
        }
        let tile = match mover_side {
            Side::White => self.white.remove(idx),
            Side::Black => self.black.remove(idx),
        };
        if self.line.len() == 0 {
            self.line.push(tile.a);
            self.line.push(tile.b);
            assert(self.line@ =~= seq![tile.a, tile.b]);
        } else if go_left {
            let end = self.line[0];
            if tile.has(end) {
                self.line.insert(0, end);
                self.line.insert(0, tile.other(end));
                assert(self.line@ =~= seq![tile_other(tile, end), end] + line0);
            } else {
                let r = self.line[self.line.len() - 1];
                self.line.push(r);
                self.line.push(tile.other(r));
                assert(self.line@ =~= line0 + seq![r, tile_other(tile, r)]);
            }
        } else {
            let end = self.line[self.line.len() - 1];
            if tile.has(end) {
                self.line.push(end);
                self.line.push(tile.other(end));
                assert(self.line@ =~= line0 + seq![end, tile_other(tile, end)]);
            } else {
                let l = self.line[0];
                self.line.insert(0, l);
                self.line.insert(0, tile.other(l));
                assert(self.line@ =~= seq![tile_other(tile, l), l] + line0);
            }
        }
        self.consecutive_passes = 0;
        let emptied = match mover_side {
            Side::White => self.white.len() == 0,
            Side::Black => self.black.len() == 0,
        };
        proof {
            assert(tiles_ok(self.hand_of(mover_side))) by {
                assert forall|j: int| 0 <= j < self.hand_of(mover_side).len() implies (#[trigger] self.hand_of(mover_side)[j]).a + self.hand_of(mover_side)[j].b <= u8::MAX by {
                    if j < idx {
                        assert(self.hand_of(mover_side)[j] == hand0[j]);
                    } else {
                        assert(self.hand_of(mover_side)[j] == hand0[j + 1]);
                    }
                }
            }
        }
        if emptied {
            let pts = self.hand_pips(mover_side.opposite());
            self.status = Status::Won(mover_side, pts);
            return true;
        }
        self.turn = mover_side.opposite();
        true
    }

    /// The state after the mover passed: the second pass in a row resolves
    /// the block (the lower hand wins the difference, equal hands draw),
    /// otherwise the turn goes over.
    pub open spec fn passed(&self, g: Dominoes) -> bool {
        let w = pips_of(self.hand_of(Side::White));
        let b = pips_of(self.hand_of(Side::Black));
        &&& g.hand_of(Side::White) == self.hand_of(Side::White)
        &&& g.hand_of(Side::Black) == self.hand_of(Side::Black)
        &&& g.boneyard_spec() == self.boneyard_spec()
        &&& g.line_spec() == self.line_spec()
        &&& g.passes_spec() == self.passes_spec() + 1
        &&& if self.passes_spec() + 1 >= 2 {
            &&& g.turn_spec() == self.turn_spec()
            &&& g.status_spec() == if w < b {
                Status::Won(Side::White, (b - w) as u16)
            } else if w > b {
                Status::Won(Side::Black, (w - b) as u16)
            } else {
                Status::Draw
            }
        } else {
            g.turn_spec() == opposite_of(self.turn_spec()) && g.status_spec() == self.status_spec()
        }
    }

    /// Passes the turn; two passes in a row resolve the block: the lower
    /// hand wins the difference, equal hands draw.
    pub fn pass(&mut self) -> (ok: bool)
        requires
            old(self).wf(),
        ensures
            final(self).wf(),
            ok == (old(self).status_spec() is Ongoing && old(self).legal_spec().len() == 0
                && old(self).boneyard_spec().len() == 0),
            !ok ==> *final(self) == *old(self),
            ok ==> old(self).passed(*final(self)),
    {
        if !self.can_pass() {
            return false;
        }
        self.consecutive_passes = self.consecutive_passes + 1;
        if self.consecutive_passes >= 2 {
            let w = self.hand_pips(Side::White);
            let b = self.hand_pips(Side::Black);
            self.status = if w < b {
                Status::Won(Side::White, b - w)
            } else if w > b {
                Status::Won(Side::Black, w - b)
            } else {
                Status::Draw
            };
            return true;
        }
        self.turn = self.turn.opposite();
        true
    }

    /// A copy of the whole state.
    pub fn copy(&self) -> (r: Self)
        ensures
            r.hand_of(Side::White) == self.hand_of(Side::White),
            r.hand_of(Side::Black) == self.hand_of(Side::Black),
            r.boneyard_spec() == self.boneyard_spec(),
            r.line_spec() == self.line_spec(),
            r.turn_spec() == self.turn_spec(),
            r.status_spec() == self.status_spec(),
            r.passes_spec() == self.passes_spec(),
    {
        let mut line: Vec<u8> = Vec::new();
        let mut i: usize = 0;
        while i < self.line.len()
            invariant
                0 <= i <= self.line@.len(),
                line@ == self.line@.take(i as int),
            decreases self.line@.len() - i,
        {
            line.push(self.line[i]);
            assert(self.line@.take(i + 1) =~= self.line@.take(i as int).push(self.line@[i as int]));
            i += 1;
        }
        assert(self.line@.take(self.line@.len() as int) =~= self.line@);
        Dominoes {
            white: copy_tiles(&self.white),
            black: copy_tiles(&self.black),
            boneyard: copy_tiles(&self.boneyard),
            line,
            turn: self.turn,
            status: self.status,
            consecutive_passes: self.consecutive_passes,
        }
    }
}

/// Sum of the laid halves.
pub open spec fn halves_sum(line: Seq<u8>) -> int
    decreases line.len(),
{
    if line.len() == 0 {
        0
    } else {
        halves_sum(line.drop_last()) + line.last()
    }
}

/// Tiles in play: both hands, the yard, and the chain at two halves a tile.
pub open spec fn tiles_in_play(g: Dominoes) -> nat {
    g.hand_of(Side::White).len() + g.hand_of(Side::Black).len() + g.boneyard_spec().len()
        + g.line_spec().len() / 2
}

/// Pips in play: both hands, the yard, and every laid half.
pub open spec fn pips_in_play(g: Dominoes) -> int {
    pips_of(g.hand_of(Side::White)) + pips_of(g.hand_of(Side::Black)) + pips_of(g.boneyard_spec())
        + halves_sum(g.line_spec())
}

proof fn lemma_halves_concat(a: Seq<u8>, b: Seq<u8>)
    ensures
        halves_sum(a + b) == halves_sum(a) + halves_sum(b),
    decreases b.len(),
{
    if b.len() > 0 {
        lemma_halves_concat(a, b.drop_last());
        assert((a + b).drop_last() =~= a + b.drop_last());
    } else {
        assert(a + b =~= a);
    }
}

proof fn lemma_halves_pair(x: u8, y: u8)
    ensures
        halves_sum(seq![x, y]) == x + y,
{
    let s = seq![x, y];
    let one = seq![x];
    assert(one.drop_last() =~= Seq::<u8>::empty());
    assert(halves_sum(Seq::<u8>::empty()) == 0);
    assert(one.last() == x);
    assert(halves_sum(one) == x);
    assert(s.last() == y);
    assert(s.drop_last() =~= one);
    assert(halves_sum(s) == halves_sum(one) + y);
}

/// Laying a tile adds exactly its two halves to the chain.
proof fn lemma_line_after(line: Seq<u8>, t: Tile, go_left: bool)
    requires
        line.len() == 0 || tile_has(t, line[0]) || tile_has(t, line.last()),
    ensures
        line_after(line, t, go_left).len() == line.len() + 2,
        halves_sum(line_after(line, t, go_left)) == halves_sum(line) + t.a + t.b,
{
    if line.len() == 0 {
        lemma_halves_pair(t.a, t.b);
        assert(halves_sum(line) == 0);
    } else {
        let l = line[0];
        let r = line.last();
        lemma_halves_pair(tile_other(t, l), l);
        lemma_halves_pair(r, tile_other(t, r));
        lemma_halves_concat(seq![tile_other(t, l), l], line);
        lemma_halves_concat(line, seq![r, tile_other(t, r)]);
    }
}

/// Laying a tile moves it from the mover's hand onto the chain: the
/// number of tiles in play and the pips on them stay the same.
pub proof fn law_laying_keeps_tiles(g: Dominoes, idx: int, prefer_left: bool, h: Dominoes)
    requires
        g.wf(),
        g.playable(idx),
        g.laid(idx, prefer_left, h),
    ensures
        tiles_in_play(h) == tiles_in_play(g),
        pips_in_play(h) == pips_in_play(g),
{
    let mover = g.turn_spec();
    let hand = g.hand_of(mover);
    let line = g.line_spec();
    let t = hand[idx];
    let fits_left = line.len() == 0 || tile_has(t, line[0]);
    let fits_right = line.len() == 0 || tile_has(t, line.last());
    let go_left = (prefer_left && fits_left) || !fits_right;
    lemma_line_after(line, t, go_left);
    lemma_pips_remove(hand, idx);
    assert((line.len() + 2) / 2 == line.len() / 2 + 1);
    match mover {
        Side::White => {},
        Side::Black => {},
    }
}

/// Drawing moves the last yard tile into the mover's hand: the number of
/// tiles in play and the pips on them stay the same.
pub proof fn law_drawing_keeps_tiles(g: Dominoes, h: Dominoes)
    requires
        g.wf(),
        g.boneyard_spec().len() > 0,
        g.drew(h),
    ensures
        tiles_in_play(h) == tiles_in_play(g),
        pips_in_play(h) == pips_in_play(g),
{
    let mover = g.turn_spec();
    let yard = g.boneyard_spec();
    let hand = g.hand_of(mover);
    assert(yard =~= yard.drop_last().push(yard.last()));
    lemma_pips_concat(yard.drop_last(), seq![yard.last()]);
    lemma_pips_concat(hand, seq![yard.last()]);
    assert(seq![yard.last()].drop_last() =~= Seq::<Tile>::empty());
    assert(hand.push(yard.last()) =~= hand + seq![yard.last()]);
    assert(yard.drop_last().push(yard.last()) =~= yard.drop_last() + seq![yard.last()]);
    match mover {
        Side::White => {},
        Side::Black => {},
    }
}

} // verus!

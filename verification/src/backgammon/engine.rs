//! Pure backgammon rules engine; only the dice come from chance.
//!
//! Model: points indexed 0..23; WHITE travels 0 -> 23 (home 18..=23, bears off
//! past 23), BLACK travels 23 -> 0 (home 0..=5, bears off past 0). The board is
//! an `i8` per point (positive = white count, negative = black count) plus bar
//! and borne-off counters.
//!
//! Documented simplifications:
//! - the must-play-max-die rule is not enforced;
//! - "no moves at all" detection right after a roll approximates forced-line
//!   analysis with a union of single legal steps across the distinct dice;
//! - the same union check runs after each play, so a roll whose leftover dice
//!   (partial doubles) admit no step passes the turn instead of deadlocking.

use crate::random::random_below;
use vstd::prelude::*;

verus! {

/// Side marker for a checker on its way back in from the bar.
pub const BAR: usize = 24;

/// Pseudo-slot for a borne-off destination.
pub const OFF: usize = 25;

#[derive(Clone, Copy, PartialEq, Eq, Debug, Structural)]
pub enum Side {
    White,
    Black,
}

pub open spec fn opposite_of(s: Side) -> Side {
    match s {
        Side::White => Side::Black,
        Side::Black => Side::White,
    }
}

impl Side {
    pub fn opposite(self) -> (r: Self)
        ensures
            r == opposite_of(self),
    {
        match self {
            Side::White => Side::Black,
            Side::Black => Side::White,
        }
    }
}

#[derive(Clone, Copy, PartialEq, Eq, Debug, Structural)]
pub enum Phase {
    Roll,
    Move,
    GameOver,
}

/// Where a move lands: an interior point or off the board.
#[derive(Clone, Copy, PartialEq, Eq, Debug, Structural)]
pub enum Dest {
    Point(usize),
    Off,
}

/// Opening layout: white 2 on 0, 5 on 11, 3 on 16, 5 on 18; black 5 on 5,
/// 3 on 7, 5 on 12, 2 on 23.
pub open spec fn start_point(i: int) -> int {
    if i == 0 {
        2
    } else if i == 5 {
        -5
    } else if i == 7 {
        -3
    } else if i == 11 {
        5
    } else if i == 12 {
        -5
    } else if i == 16 {
        3
    } else if i == 18 {
        5
    } else if i == 23 {
        -2
    } else {
        0
    }
}

/// Checkers of `side` waiting on the bar.
pub open spec fn bar_of(bar: (u8, u8), side: Side) -> int {
    match side {
        Side::White => bar.0 as int,
        Side::Black => bar.1 as int,
    }
}

/// `side` owns point `i`.
pub open spec fn owns_spec(points: Seq<i8>, side: Side, i: int) -> bool {
    match side {
        Side::White => points[i] > 0,
        Side::Black => points[i] < 0,
    }
}

/// Two or more enemy checkers block the point for `mover`.
pub open spec fn blocked_spec(points: Seq<i8>, mover: Side, i: int) -> bool {
    match mover {
        Side::White => points[i] <= -2,
        Side::Black => points[i] >= 2,
    }
}

/// `side`'s home board.
pub open spec fn in_home(side: Side, i: int) -> bool {
    match side {
        Side::White => 18 <= i <= 23,
        Side::Black => 0 <= i <= 5,
    }
}

/// Every checker of `side` is in its home board (none on the bar).
pub open spec fn all_home_spec(points: Seq<i8>, bar: (u8, u8), side: Side) -> bool {
    bar_of(bar, side) == 0 && forall|i: int| 0 <= i < 24 && !in_home(side, i) ==> !#[trigger] owns_spec(points, side, i)
}

/// `src` holds the checker of `side` furthest from bearing off (the
/// highest white point, the lowest black point).
pub open spec fn furthest_spec(points: Seq<i8>, side: Side, src: int) -> bool {
    owns_spec(points, side, src) && match side {
        Side::White => forall|j: int| src < j < 24 ==> !#[trigger] owns_spec(points, side, j),
        Side::Black => forall|j: int| 0 <= j < src ==> !#[trigger] owns_spec(points, side, j),
    }
}

/// Landing of one `die` played by `mover` from `src` (a point or [`BAR`]),
/// if legal: bar checkers enter the opponent's home, other checkers move
/// `die` points forward onto any point not blocked, and once every checker
/// is home a checker bears off exactly — or with a larger die from the
/// furthest checker.
pub open spec fn step_spec(points: Seq<i8>, bar: (u8, u8), mover: Side, src: int, die: int) -> Option<
    Dest,
> {
    if die == 0 {
        None
    } else if src != BAR && bar_of(bar, mover) > 0 {
        None
    } else {
        match mover {
            Side::White => if src == BAR {
                if !blocked_spec(points, mover, die - 1) {
                    Some(Dest::Point((die - 1) as usize))
                } else {
                    None
                }
            } else if src + die <= 23 {
                if !blocked_spec(points, mover, src + die) {
                    Some(Dest::Point((src + die) as usize))
                } else {
                    None
                }
            } else if !all_home_spec(points, bar, Side::White) {
                None
            } else if die == 24 - src || furthest_spec(points, Side::White, src) {
                Some(Dest::Off)
            } else {
                None
            },
            Side::Black => if src == BAR {
                if !blocked_spec(points, mover, 24 - die) {
                    Some(Dest::Point((24 - die) as usize))
                } else {
                    None
                }
            } else if src - die >= 0 {
                if !blocked_spec(points, mover, src - die) {
                    Some(Dest::Point((src - die) as usize))
                } else {
                    None
                }
            } else if !all_home_spec(points, bar, Side::Black) {
                None
            } else if die == src + 1 || furthest_spec(points, Side::Black, src) {
                Some(Dest::Off)
            } else {
                None
            },
        }
    }
}

/// The board seen from the other side: point `i` holds what point `23 - i`
/// held, with the colours exchanged.
pub open spec fn mirrored(points: Seq<i8>) -> Seq<i8> {
    Seq::new(24, |i: int| (-points[23 - i]) as i8)
}

/// The bar with the two sides' counts exchanged.
pub open spec fn bar_swapped(bar: (u8, u8)) -> (u8, u8) {
    (bar.1, bar.0)
}

/// A landing seen from the other side: point `t` becomes `23 - t`, bearing
/// off stays bearing off.
pub open spec fn dest_mirrored(d: Option<Dest>) -> Option<Dest> {
    match d {
        Some(Dest::Point(t)) => Some(Dest::Point((23 - t) as usize)),
        other => other,
    }
}

/// The rules treat the two sides alike: a Black checker on point `src` (or
/// on the bar) playing a die lands exactly where the White checker on the
/// mirrored point `23 - src` (or on the bar) of the mirrored board lands,
/// seen from the other side. In particular Black may bear off from `src`
/// (exactly, or with a larger die from its rearmost checker) exactly when
/// White may bear off from `23 - src` in the mirrored position.
pub proof fn law_black_mirrors_white(points: Seq<i8>, bar: (u8, u8), src: int, die: int)
    requires
        points.len() == 24,
        forall|i: int| 0 <= i < 24 ==> #[trigger] points[i] > i8::MIN,
        0 <= src < 24 || src == BAR,
        0 <= die <= 6,
    ensures
        step_spec(points, bar, Side::Black, src, die) == dest_mirrored(
            step_spec(mirrored(points), bar_swapped(bar), Side::White, if src == BAR { BAR as int } else { 23 - src }, die),
        ),
{
    let m = mirrored(points);
    let b2 = bar_swapped(bar);
    assert(forall|i: int| 0 <= i < 24 ==> #[trigger] m[i] == -points[23 - i]);
    assert(all_home_spec(points, bar, Side::Black) == all_home_spec(m, b2, Side::White)) by {
        if all_home_spec(points, bar, Side::Black) {
            assert forall|i: int| 0 <= i < 24 && !in_home(Side::White, i) implies !#[trigger] owns_spec(m, Side::White, i) by {
                assert(!owns_spec(points, Side::Black, 23 - i));
            }
        }
        if all_home_spec(m, b2, Side::White) {
            assert forall|i: int| 0 <= i < 24 && !in_home(Side::Black, i) implies !#[trigger] owns_spec(points, Side::Black, i) by {
                assert(!owns_spec(m, Side::White, 23 - i));
            }
        }
    }
    if 0 <= src < 24 {
        assert(furthest_spec(points, Side::Black, src) == furthest_spec(m, Side::White, 23 - src)) by {
            if furthest_spec(points, Side::Black, src) {
                assert forall|j: int| 23 - src < j < 24 implies !#[trigger] owns_spec(m, Side::White, j) by {
                    assert(!owns_spec(points, Side::Black, 23 - j));
                }
            }
            if furthest_spec(m, Side::White, 23 - src) {
                assert forall|j: int| 0 <= j < src implies !#[trigger] owns_spec(points, Side::Black, j) by {
                    assert(!owns_spec(m, Side::White, 23 - j));
                }
            }
        }
    }
}

/// Bearing off: once every checker of the mover is in its home board (and
/// none on the bar), a checker whose die carries it past the edge leaves
/// the board exactly when the die matches its distance to the edge, or the
/// die is larger and no checker of its side stands nearer the edge than
/// it; while some checker is still outside home, nothing bears off.
pub proof fn law_bear_off(points: Seq<i8>, bar: (u8, u8), src: int, die: int)
    requires
        points.len() == 24,
        0 <= src < 24,
        1 <= die <= 6,
    ensures
        src + die > 23 && points[src] > 0 ==> (step_spec(points, bar, Side::White, src, die) == Some(Dest::Off)
            <==> (bar.0 == 0 && (forall|i: int| 0 <= i < 18 ==> #[trigger] points[i] <= 0) && (die == 24 - src
            || forall|j: int| src < j < 24 ==> #[trigger] points[j] <= 0))),
        src - die < 0 && points[src] < 0 ==> (step_spec(points, bar, Side::Black, src, die) == Some(Dest::Off)
            <==> (bar.1 == 0 && (forall|i: int| 6 <= i < 24 ==> #[trigger] points[i] >= 0) && (die == src + 1
            || forall|j: int| 0 <= j < src ==> #[trigger] points[j] >= 0))),
{
    assert(all_home_spec(points, bar, Side::White) == (bar.0 == 0 && (forall|i: int| 0 <= i < 18 ==> #[trigger] points[i] <= 0))) by {
        if bar.0 == 0 && (forall|i: int| 0 <= i < 18 ==> #[trigger] points[i] <= 0) {
            assert forall|i: int| 0 <= i < 24 && !in_home(Side::White, i) implies !#[trigger] owns_spec(points, Side::White, i) by {
                assert(points[i] <= 0);
            }
        }
        if all_home_spec(points, bar, Side::White) {
            assert forall|i: int| 0 <= i < 18 implies #[trigger] points[i] <= 0 by {
                assert(!owns_spec(points, Side::White, i));
            }
        }
    }
    assert(all_home_spec(points, bar, Side::Black) == (bar.1 == 0 && (forall|i: int| 6 <= i < 24 ==> #[trigger] points[i] >= 0))) by {
        if bar.1 == 0 && (forall|i: int| 6 <= i < 24 ==> #[trigger] points[i] >= 0) {
            assert forall|i: int| 0 <= i < 24 && !in_home(Side::Black, i) implies !#[trigger] owns_spec(points, Side::Black, i) by {
                assert(points[i] >= 0);
            }
        }
        if all_home_spec(points, bar, Side::Black) {
            assert forall|i: int| 6 <= i < 24 implies #[trigger] points[i] >= 0 by {
                assert(!owns_spec(points, Side::Black, i));
            }
        }
    }
    assert(furthest_spec(points, Side::White, src) == (points[src] > 0 && forall|j: int| src < j < 24 ==> #[trigger] points[j] <= 0)) by {
        if points[src] > 0 && forall|j: int| src < j < 24 ==> #[trigger] points[j] <= 0 {
            assert forall|j: int| src < j < 24 implies !#[trigger] owns_spec(points, Side::White, j) by {
                assert(points[j] <= 0);
            }
        }
        if furthest_spec(points, Side::White, src) {
            assert forall|j: int| src < j < 24 implies #[trigger] points[j] <= 0 by {
                assert(!owns_spec(points, Side::White, j));
            }
        }
    }
    assert(furthest_spec(points, Side::Black, src) == (points[src] < 0 && forall|j: int| 0 <= j < src ==> #[trigger] points[j] >= 0)) by {
        if points[src] < 0 && forall|j: int| 0 <= j < src ==> #[trigger] points[j] >= 0 {
            assert forall|j: int| 0 <= j < src implies !#[trigger] owns_spec(points, Side::Black, j) by {
                assert(points[j] >= 0);
            }
        }
        if furthest_spec(points, Side::Black, src) {
            assert forall|j: int| 0 <= j < src implies #[trigger] points[j] >= 0 by {
                assert(!owns_spec(points, Side::Black, j));
            }
        }
    }
}

/// Some checker of `mover` can play `die`: from the bar while it holds
/// checkers, otherwise from any owned point.
pub open spec fn die_playable(points: Seq<i8>, bar: (u8, u8), mover: Side, die: int) -> bool {
    if bar_of(bar, mover) > 0 {
        step_spec(points, bar, mover, BAR as int, die) is Some
    } else {
        exists|i: int|
            0 <= i < 24 && owns_spec(points, mover, i) && #[trigger] step_spec(
                points,
                bar,
                mover,
                i,
                die,
            ) is Some
    }
}

/// Some remaining die value is playable.
pub open spec fn any_playable(points: Seq<i8>, bar: (u8, u8), mover: Side, left: Seq<u8>) -> bool {
    exists|k: int| 0 <= k < left.len() && #[trigger] die_playable(points, bar, mover, left[k] as int)
}

/// Distinct values of `s` in order of first appearance.
pub open spec fn unique_spec(s: Seq<u8>) -> Seq<u8>
    decreases s.len(),
{
    if s.len() == 0 {
        s
    } else {
        let u = unique_spec(s.drop_last());
        if u.contains(s.last()) {
            u
        } else {
            u.push(s.last())
        }
    }
}

/// `(destination, die)` pairs from `from` for each die value of `dice`.
pub open spec fn dests_for(
    points: Seq<i8>,
    bar: (u8, u8),
    mover: Side,
    from: int,
    dice: Seq<u8>,
) -> Seq<(Dest, u8)>
    decreases dice.len(),
{
    if dice.len() == 0 {
        Seq::empty()
    } else {
        let d = dice.last();
        dests_for(points, bar, mover, from, dice.drop_last()) + match step_spec(
            points,
            bar,
            mover,
            from,
            d as int,
        ) {
            Some(dest) => seq![(dest, d)],
            None => Seq::empty(),
        }
    }
}

/// `src` may start a move: the bar while it holds checkers, otherwise an
/// owned point.
pub open spec fn usable_src(points: Seq<i8>, bar: (u8, u8), mover: Side, src: int) -> bool {
    if src == BAR {
        bar_of(bar, mover) > 0
    } else {
        bar_of(bar, mover) == 0 && owns_spec(points, mover, src)
    }
}

/// Some die value of `dice` lands from `src`.
pub open spec fn src_has_step(points: Seq<i8>, bar: (u8, u8), mover: Side, src: int, dice: Seq<u8>) -> bool {
    exists|k: int| 0 <= k < dice.len() && #[trigger] step_spec(points, bar, mover, src, dice[k] as int) is Some
}

/// Movable sources below `n`, ascending.
pub open spec fn movable_upto(
    points: Seq<i8>,
    bar: (u8, u8),
    mover: Side,
    dice: Seq<u8>,
    n: int,
) -> Seq<usize>
    decreases n,
{
    if n <= 0 {
        Seq::empty()
    } else {
        movable_upto(points, bar, mover, dice, n - 1) + if usable_src(points, bar, mover, n - 1)
            && src_has_step(points, bar, mover, n - 1, dice) {
            seq![(n - 1) as usize]
        } else {
            Seq::empty()
        }
    }
}

/// Absolute checker count on a point.
pub open spec fn abs8(v: i8) -> int {
    if v < 0 {
        -(v as int)
    } else {
        v as int
    }
}

/// Checkers on the first `n` points, both colours.
pub open spec fn checker_sum(points: Seq<i8>, n: int) -> int
    decreases n,
{
    if n <= 0 {
        0
    } else {
        checker_sum(points, n - 1) + abs8(points[n - 1])
    }
}

/// Pips of `side` on the first `n` points.
pub open spec fn pip_upto(points: Seq<i8>, side: Side, n: int) -> int
    decreases n,
{
    if n <= 0 {
        0
    } else {
        pip_upto(points, side, n - 1) + if owns_spec(points, side, n - 1) {
            abs8(points[n - 1]) * match side {
                Side::White => 24 - (n - 1),
                Side::Black => n,
            }
        } else {
            0
        }
    }
}

/// Checkers of `side` standing on a point holding `v`.
pub open spec fn count_for(v: i8, side: Side) -> int {
    match side {
        Side::White => if v > 0 {
            v as int
        } else {
            0
        },
        Side::Black => if v < 0 {
            -(v as int)
        } else {
            0
        },
    }
}

/// Checkers of `side` on the first `n` points.
pub open spec fn side_sum(points: Seq<i8>, side: Side, n: int) -> int
    decreases n,
{
    if n <= 0 {
        0
    } else {
        side_sum(points, side, n - 1) + count_for(points[n - 1], side)
    }
}

/// Checkers of `side` borne off.
pub open spec fn off_of(off: (u8, u8), side: Side) -> int {
    match side {
        Side::White => off.0 as int,
        Side::Black => off.1 as int,
    }
}

/// Every checker of `side`: on the points, on the bar and borne off.
pub open spec fn checkers_of(points: Seq<i8>, bar: (u8, u8), off: (u8, u8), side: Side) -> int {
    side_sum(points, side, 24) + bar_of(bar, side) + off_of(off, side)
}

/// Direction sign of `side`'s checkers on the board.
pub open spec fn sign_of(side: Side) -> int {
    match side {
        Side::White => 1,
        Side::Black => -1,
    }
}

/// `r` failed with the message `msg`.
pub open spec fn err_is(r: Result<(), &'static str>, msg: &'static str) -> bool {
    match r {
        Err(e) => e@ == msg@,
        Ok(_) => false,
    }
}

pub open spec fn winner_spec(off: (u8, u8)) -> Option<Side> {
    if off.0 == 15 {
        Some(Side::White)
    } else if off.1 == 15 {
        Some(Side::Black)
    } else {
        None
    }
}

/// Index of the first entry of `s` equal to `d`.
pub open spec fn first_pos(s: Seq<u8>, d: u8) -> int {
    choose|i: int| 0 <= i < s.len() && s[i] == d && forall|j: int| 0 <= j < i ==> s[j] != d
}

/// Board, bars and borne-off counts after `mover` plays a checker from
/// `from` (a point or [`BAR`]) to `dest`: a lone enemy checker on the
/// landing point is sent to its bar first.
pub open spec fn play_board(p0: Seq<i8>, bar: (u8, u8), off: (u8, u8), mover: Side, from: int, dest: Dest) -> (
    Seq<i8>,
    (u8, u8),
    (u8, u8),
) {
    let (p1, bar1) = match dest {
        Dest::Point(idx) => if p0[idx as int] == -sign_of(mover) {
            (
                p0.update(idx as int, 0),
                if p0[idx as int] == 1 {
                    ((bar.0 + 1) as u8, bar.1)
                } else {
                    (bar.0, (bar.1 + 1) as u8)
                },
            )
        } else {
            (p0, bar)
        },
        Dest::Off => (p0, bar),
    };
    let (p2, bar2) = if from == BAR {
        (
            p1,
            match mover {
                Side::White => ((bar1.0 - 1) as u8, bar1.1),
                Side::Black => (bar1.0, (bar1.1 - 1) as u8),
            },
        )
    } else {
        (p1.update(from, (p1[from] - sign_of(mover)) as i8), bar1)
    };
    match dest {
        Dest::Point(idx) => (p2.update(idx as int, (p2[idx as int] + sign_of(mover)) as i8), bar2, off),
        Dest::Off => (
            p2,
            bar2,
            match mover {
                Side::White => ((off.0 + 1) as u8, off.1),
                Side::Black => (off.0, (off.1 + 1) as u8),
            },
        ),
    }
}

/// How a play ends, given the board after it and the dice still to play:
/// fifteen borne off ends the game; no playable die hands the turn over;
/// otherwise the same side plays on.
pub open spec fn settled(
    points: Seq<i8>,
    bar: (u8, u8),
    off: (u8, u8),
    mover: Side,
    left: Seq<u8>,
    g: Backgammon,
) -> bool {
    if winner_spec(off) is Some {
        &&& g.phase_spec() == Phase::GameOver
        &&& g.turn_spec() == mover
        &&& g.left_spec() == left
    } else if left.len() == 0 || !any_playable(points, bar, mover, left) {
        &&& g.phase_spec() == Phase::Roll
        &&& g.turn_spec() == opposite_of(mover)
        &&& g.left_spec().len() == 0
    } else {
        &&& g.phase_spec() == Phase::Move
        &&& g.turn_spec() == mover
        &&& g.left_spec() == left
    }
}

pub struct Backgammon {
    points: [i8; 24],
    /// (white, black) checkers waiting to re-enter from the bar.
    bar: (u8, u8),
    /// (white, black) checkers borne off.
    off: (u8, u8),
    turn: Side,
    phase: Phase,
    dice: [u8; 2],
    /// Remaining die values to play this turn (four entries on doubles).
    left: Vec<u8>,
}

impl Backgammon {
    pub closed spec fn points_spec(&self) -> Seq<i8> {
        self.points@
    }

    pub closed spec fn bar_spec(&self) -> (u8, u8) {
        self.bar
    }

    pub closed spec fn off_spec(&self) -> (u8, u8) {
        self.off
    }

    pub closed spec fn turn_spec(&self) -> Side {
        self.turn
    }

    pub closed spec fn phase_spec(&self) -> Phase {
        self.phase
    }

    pub closed spec fn dice_spec(&self) -> [u8; 2] {
        self.dice
    }

    pub closed spec fn left_spec(&self) -> Seq<u8> {
        self.left@
    }

    /// All checkers together (on points, bars and borne off) stay few
    /// enough that no counter can overflow; remaining dice are die values.
    pub open spec fn wf(&self) -> bool {
        &&& self.points_spec().len() == 24
        &&& checker_sum(self.points_spec(), 24) + self.bar_spec().0 + self.bar_spec().1
            + self.off_spec().0 + self.off_spec().1 <= 120
        &&& self.left_spec().len() <= 4
        &&& forall|k: int| 0 <= k < self.left_spec().len() ==> 1 <= #[trigger] self.left_spec()[k] <= 6
    }

    /// A one-die step of the side to move from `src`.
    pub open spec fn step(&self, src: int, die: int) -> Option<Dest> {
        step_spec(self.points_spec(), self.bar_spec(), self.turn_spec(), src, die)
    }

    /// `(destination, die)` pairs offered from `from` (see
    /// [`Backgammon::destinations`]).
    pub open spec fn destinations_spec(&self, from: int) -> Seq<(Dest, u8)> {
        if self.phase_spec() != Phase::Move || from > BAR {
            Seq::empty()
        } else if from == BAR && bar_of(self.bar_spec(), self.turn_spec()) == 0 {
            Seq::empty()
        } else if from != BAR && !owns_spec(self.points_spec(), self.turn_spec(), from) {
            Seq::empty()
        } else {
            dests_for(
                self.points_spec(),
                self.bar_spec(),
                self.turn_spec(),
                from,
                unique_spec(self.left_spec()),
            )
        }
    }

    /// The state after handing the turn over: dice cleared, waiting for a
    /// roll (nothing changes once the game is over).
    pub open spec fn ended_turn(&self, g: Backgammon) -> bool {
        &&& g.points_spec() == self.points_spec()
        &&& g.bar_spec() == self.bar_spec()
        &&& g.off_spec() == self.off_spec()
        &&& g.dice_spec() == self.dice_spec()
        &&& if self.phase_spec() == Phase::GameOver {
            &&& g.phase_spec() == Phase::GameOver
            &&& g.turn_spec() == self.turn_spec()
            &&& g.left_spec() == self.left_spec()
        } else {
            &&& g.phase_spec() == Phase::Roll
            &&& g.turn_spec() == opposite_of(self.turn_spec())
            &&& g.left_spec().len() == 0
        }
    }

    pub fn new() -> (g: Self)
        ensures
            g.wf(),
            forall|i: int| 0 <= i < 24 ==> #[trigger] g.points_spec()[i] == start_point(i),
            g.bar_spec() == (0u8, 0u8),
            g.off_spec() == (0u8, 0u8),
            g.turn_spec() == Side::Black,
            g.phase_spec() == Phase::Roll,
            g.dice_spec() == [1u8, 1u8],
            g.left_spec().len() == 0,
    {
        let mut p = [0i8; 24];
        p[0] = 2;
        p[5] = -5;
        p[7] = -3;
        p[11] = 5;
        p[12] = -5;
        p[16] = 3;
        p[18] = 5;
        p[23] = -2;
        let g = Backgammon {
            points: p,
            bar: (0, 0),
            off: (0, 0),
            turn: Side::Black,
            phase: Phase::Roll,
            dice: [1, 1],
            left: Vec::new(),
        };
        assert(forall|i: int| 0 <= i < 24 ==> #[trigger] g.points@[i] == start_point(i));
        assert(checker_sum(g.points@, 24) == 30) by {
            reveal_with_fuel(checker_sum, 25);
        }
        g
    }

    /// A position staged directly: `points`, bars, borne-off counts and the
    /// side to move, waiting for a roll.
    pub fn position(points: [i8; 24], bar: (u8, u8), off: (u8, u8), turn: Side) -> (g: Self)
        ensures
            g.points_spec() == points@,
            g.bar_spec() == bar,
            g.off_spec() == off,
            g.turn_spec() == turn,
            g.phase_spec() == Phase::Roll,
            g.dice_spec() == [1u8, 1u8],
            g.left_spec().len() == 0,
    {
        Backgammon { points, bar, off, turn, phase: Phase::Roll, dice: [1, 1], left: Vec::new() }
    }

    /// A copy of the whole state.
    pub fn copy(&self) -> (r: Self)
        ensures
            r.points_spec() == self.points_spec(),
            r.bar_spec() == self.bar_spec(),
            r.off_spec() == self.off_spec(),
            r.turn_spec() == self.turn_spec(),
            r.phase_spec() == self.phase_spec(),
            r.dice_spec() == self.dice_spec(),
            r.left_spec() == self.left_spec(),
    {
        let mut left: Vec<u8> = Vec::new();
        let mut i: usize = 0;
        while i < self.left.len()
            invariant
                0 <= i <= self.left@.len(),
                left@ == self.left@.take(i as int),
            decreases self.left@.len() - i,
        {
            left.push(self.left[i]);
            assert(self.left@.take(i + 1) =~= self.left@.take(i as int).push(self.left@[i as int]));
            i += 1;
        }
        assert(self.left@.take(self.left@.len() as int) =~= self.left@);
        Backgammon {
            points: self.points,
            bar: self.bar,
            off: self.off,
            turn: self.turn,
            phase: self.phase,
            dice: self.dice,
            left,
        }
    }

    pub fn points(&self) -> (r: &[i8; 24])
        ensures
            r@ == self.points_spec(),
    {
        &self.points
    }

    pub fn bar(&self) -> (r: (u8, u8))
        ensures
            r == self.bar_spec(),
    {
        self.bar
    }

    pub fn off(&self) -> (r: (u8, u8))
        ensures
            r == self.off_spec(),
    {
        self.off
    }

    pub fn turn(&self) -> (r: Side)
        ensures
            r == self.turn_spec(),
    {
        self.turn
    }

    pub fn phase(&self) -> (r: Phase)
        ensures
            r == self.phase_spec(),
    {
        self.phase
    }

    pub fn dice(&self) -> (r: [u8; 2])
        ensures
            r == self.dice_spec(),
    {
        self.dice
    }

    pub fn left(&self) -> (r: &[u8])
        ensures
            r@ == self.left_spec(),
    {
        self.left.as_slice()
    }

    pub fn winner(&self) -> (r: Option<Side>)
        ensures
            r == winner_spec(self.off_spec()),
    {
        if self.off.0 == 15 {
            Some(Side::White)
        } else if self.off.1 == 15 {
            Some(Side::Black)
        } else {
            None
        }
    }

    /// Distance-to-off summed over a side's checkers; bar checkers count 25
    /// (a full board traverse) for either side.
    pub fn pip(&self, side: Side) -> (r: usize)
        requires
            self.wf(),
        ensures
            r == pip_upto(self.points_spec(), side, 24) + 25 * bar_of(self.bar_spec(), side),
            r <= 6000,
    {
        let mut total: usize = 0;
        let mut idx: usize = 0;
        proof {
            lemma_checker_sum_mono(self.points@, 0, 24);
        }
        while idx < 24
            invariant
                self.wf(),
                0 <= idx <= 24,
                total == pip_upto(self.points@, side, idx as int),
                total <= 25 * checker_sum(self.points@, idx as int),
                checker_sum(self.points@, idx as int) <= checker_sum(self.points@, 24),
            decreases 24 - idx,
        {
            proof {
                lemma_checker_sum_mono(self.points@, idx + 1, 24);
            }
            let v = self.points[idx];
            if owns(&self.points, side, idx) {
                let count: usize = if v < 0 {
                    (-(v as i16)) as usize
                } else {
                    v as usize
                };
                let dist: usize = match side {
                    Side::White => 24 - idx,
                    Side::Black => idx + 1,
                };
                proof {
                    assert(count * dist <= 25 * count) by (nonlinear_arith)
                        requires
                            dist <= 25,
                    ;
                }
                total = total + count * dist;
            }
            idx += 1;
        }
        let b = bar_count(self.bar, side) as usize;
        total + b * 25
    }

    /// Roll the dice and enter the Move phase. Returns false unless the game
    /// is awaiting a roll. If the side to move has no legal step, the turn
    /// auto-passes straight back to the opponent's Roll phase.
    pub fn roll(&mut self) -> (ok: bool)
        requires
            old(self).wf(),
        ensures
            final(self).wf(),
            ok == (old(self).phase_spec() == Phase::Roll),
            !ok ==> final(self).points_spec() == old(self).points_spec() && final(self).bar_spec()
                == old(self).bar_spec() && final(self).off_spec() == old(self).off_spec()
                && final(self).turn_spec() == old(self).turn_spec() && final(self).phase_spec()
                == old(self).phase_spec() && final(self).dice_spec() == old(self).dice_spec()
                && final(self).left_spec() == old(self).left_spec(),
            ok ==> 1 <= final(self).dice_spec()[0] <= 6 && 1 <= final(self).dice_spec()[1] <= 6
                && old(self).rolled(final(self).dice_spec()[0], final(self).dice_spec()[1], *final(self)),
    {
        match self.phase {
            Phase::Roll => {},
            _ => return false,
        }
        let d1 = (random_below(6) + 1) as u8;
        let d2 = (random_below(6) + 1) as u8;
        self.roll_with(d1, d2);
        true
    }

    /// The state after rolling `d1`/`d2`: four entries on doubles, two
    /// otherwise, and the Move phase — or an immediate hand-over when no
    /// rolled value is playable.
    pub open spec fn rolled(&self, d1: u8, d2: u8, g: Backgammon) -> bool {
        let left = if d1 == d2 {
            seq![d1, d1, d1, d1]
        } else {
            seq![d1, d2]
        };
        &&& g.dice_spec() == [d1, d2]
        &&& g.points_spec() == self.points_spec()
        &&& g.bar_spec() == self.bar_spec()
        &&& g.off_spec() == self.off_spec()
        &&& if any_playable(self.points_spec(), self.bar_spec(), self.turn_spec(), left) {
            &&& g.phase_spec() == Phase::Move
            &&& g.turn_spec() == self.turn_spec()
            &&& g.left_spec() == left
        } else {
            &&& g.phase_spec() == Phase::Roll
            &&& g.turn_spec() == opposite_of(self.turn_spec())
            &&& g.left_spec().len() == 0
        }
    }

    /// Deterministic roll used by tests and setup code.
    pub fn roll_with(&mut self, d1: u8, d2: u8)
        requires
            old(self).wf(),
            1 <= d1 <= 6,
            1 <= d2 <= 6,
        ensures
            final(self).wf(),
            old(self).rolled(d1, d2, *final(self)),
    {
        self.dice = [d1, d2];
        if d1 == d2 {
            self.left = vec![d1, d1, d1, d1];
        } else {
            self.left = vec![d1, d2];
        }
        self.phase = Phase::Move;
        // Auto-pass approximation: if no distinct die admits even one step,
        // the whole roll is dead — hand over immediately.
        let ghost left = self.left@;
        let mut any = false;
        let mut k: usize = 0;
        while k < self.left.len()
            invariant
                self.wf(),
                self.left@ == left,
                0 <= k <= left.len(),
                any == exists|j: int|
                    0 <= j < k && #[trigger] die_playable(
                        self.points@,
                        self.bar,
                        self.turn,
                        left[j] as int,
                    ),
            decreases left.len() - k,
        {
            if steps_for_die(&self.points, self.bar, self.turn, self.left[k]) {
                any = true;
            }
            k += 1;
        }
        if !any {
            self.end_turn();
        }
    }

    /// Sources (0..=BAR pseudo-slots) from which the current player may move,
    /// ascending.
    pub fn movable(&self) -> (out: Vec<usize>)
        requires
            self.wf(),
        ensures
            out@ == if self.phase_spec() == Phase::Move {
                movable_upto(self.points_spec(), self.bar_spec(), self.turn_spec(), self.left_spec(), 25)
            } else {
                Seq::empty()
            },
    {
        let mut out: Vec<usize> = Vec::new();
        match self.phase {
            Phase::Move => {},
            _ => return out,
        }
        let mut src: usize = 0;
        while src <= BAR
            invariant
                self.wf(),
                0 <= src <= 25,
                out@ == movable_upto(self.points@, self.bar, self.turn, self.left@, src as int),
            decreases 25 - src,
        {
            let usable = if src == BAR {
                bar_count(self.bar, self.turn) > 0
            } else {
                bar_count(self.bar, self.turn) == 0 && owns(&self.points, self.turn, src)
            };
            if usable {
                let mut found = false;
                let mut k: usize = 0;
                while k < self.left.len()
                    invariant
                        self.wf(),
                        0 <= src <= BAR,
                        0 <= k <= self.left@.len(),
                        found == exists|j: int|
                            0 <= j < k && #[trigger] step_spec(
                                self.points@,
                                self.bar,
                                self.turn,
                                src as int,
                                self.left@[j] as int,
                            ) is Some,
                    decreases self.left@.len() - k,
                {
                    if step_from(&self.points, self.bar, self.turn, src, self.left[k]).is_some() {
                        found = true;
                    }
                    k += 1;
                }
                if found {
                    out.push(src);
                }
            }
            src += 1;
        }
        out
    }

    /// Legal `(destination, consumed die)` pairs from `from` (a point index or
    /// [`BAR`]) for the current player mid-move.
    pub fn destinations(&self, from: usize) -> (out: Vec<(Dest, u8)>)
        requires
            self.wf(),
        ensures
            out@ == self.destinations_spec(from as int),
    {
        match self.phase {
            Phase::Move => {},
            _ => return Vec::new(),
        }
        if from > BAR {
            return Vec::new();
        }
        if from == BAR {
            if bar_count(self.bar, self.turn) == 0 {
                return Vec::new();
            }
        } else if !owns(&self.points, self.turn, from) {
            return Vec::new();
        }
        let seen = unique_dice(&self.left);
        let mut out: Vec<(Dest, u8)> = Vec::new();
        let mut k: usize = 0;
        while k < seen.len()
            invariant
                self.wf(),
                from <= BAR,
                0 <= k <= seen@.len(),
                seen@ == unique_spec(self.left@),
                forall|j: int| 0 <= j < seen@.len() ==> 1 <= #[trigger] seen@[j] <= 6,
                out@ == dests_for(self.points@, self.bar, self.turn, from as int, seen@.take(k as int)),
            decreases seen@.len() - k,
        {
            let d = seen[k];
            match step_from(&self.points, self.bar, self.turn, from, d) {
                Some(dest) => out.push((dest, d)),
                None => {},
            }
            assert(seen@.take(k + 1).drop_last() =~= seen@.take(k as int));
            k += 1;
        }
        assert(seen@.take(seen@.len() as int) =~= seen@);
        out
    }

    /// Validate, apply, consume one die, and auto-end the turn when the move
    /// list empties. Errors are static strings; nothing panics.
    pub fn move_checker(&mut self, from: usize, dest: Dest) -> (r: Result<(), &'static str>)
        requires
            old(self).wf(),
        ensures
            final(self).wf(),
            old(self).phase_spec() != Phase::Move ==> err_is(r, "not in move phase"),
            old(self).phase_spec() == Phase::Move && from > BAR ==> err_is(r, "bad source slot"),
            old(self).phase_spec() == Phase::Move && from == BAR && bar_of(
                old(self).bar_spec(),
                old(self).turn_spec(),
            ) == 0 ==> err_is(r, "no checker on your bar"),
            r is Ok <==> old(self).accepts(from as int, dest),
            r is Err && old(self).phase_spec() == Phase::Move && from <= BAR && !(from == BAR
                && bar_of(old(self).bar_spec(), old(self).turn_spec()) == 0) ==> err_is(
                r,
                "illegal destination",
            ),
            r is Err ==> final(self).points_spec() == old(self).points_spec() && final(self).bar_spec()
                == old(self).bar_spec() && final(self).off_spec() == old(self).off_spec()
                && final(self).turn_spec() == old(self).turn_spec() && final(self).phase_spec()
                == old(self).phase_spec() && final(self).dice_spec() == old(self).dice_spec()
                && final(self).left_spec() == old(self).left_spec(),
            r is Ok ==> old(self).moved(from as int, dest, *final(self)),
    {
        match self.phase {
            Phase::Move => {},
            _ => return Err("not in move phase"),
        }
        if from > BAR {
            return Err("bad source slot");
        }
        if from == BAR && bar_count(self.bar, self.turn) == 0 {
            return Err("no checker on your bar");
        }
        let candidates = self.destinations(from);
        let mut die: u8 = 0;
        let mut found = false;
        let mut k: usize = 0;
        while k < candidates.len() && !found
            invariant
                0 <= k <= candidates@.len(),
                forall|j: int| 0 <= j < k ==> #[trigger] candidates@[j].0 != dest,
                found ==> k < candidates@.len() && candidates@[k as int].0 == dest
                    && candidates@[k as int].1 == die,
            decreases candidates@.len() - k + if found { 0int } else { 1int },
        {
            if candidates[k].0 == dest {
                die = candidates[k].1;
                found = true;
            } else {
                k += 1;
            }
        }
        if !found {
            return Err("illegal destination");
        }
        proof {
            lemma_dests_shape(self.points@, self.bar, self.turn, from as int, unique_spec(self.left@));
            lemma_unique_sub(self.left@);
        }
        self.apply_move(from, dest, die);
        Ok(())
    }

    /// Two states that agree in every part accept the same moves.
    pub proof fn lemma_same_accepts(a: Backgammon, b: Backgammon, from: int, dest: Dest)
        requires
            a.points_spec() == b.points_spec(),
            a.bar_spec() == b.bar_spec(),
            a.off_spec() == b.off_spec(),
            a.turn_spec() == b.turn_spec(),
            a.phase_spec() == b.phase_spec(),
            a.left_spec() == b.left_spec(),
        ensures
            a.accepts(from, dest) == b.accepts(from, dest),
    {
        assert(a.destinations_spec(from) == b.destinations_spec(from));
    }

    /// [`Backgammon::move_checker`] plays `from`→`dest`: a move is under way,
    /// the source is a point or the mover's occupied bar, and `dest` is among
    /// the destinations offered from it.
    pub open spec fn accepts(&self, from: int, dest: Dest) -> bool {
        &&& self.phase_spec() == Phase::Move
        &&& 0 <= from <= BAR
        &&& !(from == BAR && bar_of(self.bar_spec(), self.turn_spec()) == 0)
        &&& exists|k: int|
            0 <= k < self.destinations_spec(from).len() && #[trigger] self.destinations_spec(from)[k].0 == dest
    }

    /// The state after `from`→`dest` was played with the first matching
    /// destination's die: a lone enemy checker on the landing point goes to
    /// its bar, the checker moves, one entry of that die is consumed, and the
    /// game ends or the turn passes when nothing more can be played.
    pub open spec fn moved(&self, from: int, dest: Dest, g: Backgammon) -> bool {
        let ds = self.destinations_spec(from);
        let k = choose|k: int| 0 <= k < ds.len() && ds[k].0 == dest && forall|i: int| 0 <= i < k ==> ds[i].0 != dest;
        let die = ds[k].1;
        let mover = self.turn_spec();
        let (p3, bar2, off3) = play_board(self.points_spec(), self.bar_spec(), self.off_spec(), mover, from, dest);
        let left = self.left_spec().remove(first_pos(self.left_spec(), die));
        &&& exists|k: int| 0 <= k < ds.len() && ds[k].0 == dest
        &&& g.points_spec() == p3
        &&& g.bar_spec() == bar2
        &&& g.off_spec() == off3
        &&& g.dice_spec() == self.dice_spec()
        &&& settled(p3, bar2, off3, mover, left, g)
    }

    fn apply_move(&mut self, from: usize, dest: Dest, die: u8)
        requires
            old(self).wf(),
            old(self).phase_spec() == Phase::Move,
            from <= BAR,
            exists|j: int|
                0 <= j < old(self).destinations_spec(from as int).len() && #[trigger] old(self).destinations_spec(from as int)[j].0 == dest
                    && old(self).destinations_spec(from as int)[j].1 == die && forall|i: int| 0 <= i < j ==> old(self).destinations_spec(from as int)[i].0 != dest,
            forall|j: int| 0 <= j < old(self).destinations_spec(from as int).len() ==> {
                let p = #[trigger] old(self).destinations_spec(from as int)[j];
                &&& old(self).step(from as int, p.1 as int) == Some(p.0)
                &&& old(self).left_spec().contains(p.1)
            },
        ensures
            final(self).wf(),
            old(self).moved(from as int, dest, *final(self)),
    {
        let ghost ds = self.destinations_spec(from as int);
        proof {
            let kk = choose|j: int|
                0 <= j < ds.len() && ds[j].0 == dest && ds[j].1 == die && forall|i: int| 0 <= i < j ==> ds[i].0 != dest;
            let k2 = choose|k: int| 0 <= k < ds.len() && ds[k].0 == dest && forall|i: int| 0 <= i < k ==> ds[i].0 != dest;
            assert(kk == k2) by {
                if kk < k2 {
                    assert(ds[kk].0 == dest);
                } else if k2 < kk {
                    assert(ds[k2].0 == dest);
                }
            }
            assert(ds[kk].0 == dest);
            lemma_step_dest(self.points@, self.bar, self.turn, from as int, die as int);
        }
        self.shift_checker(from, dest);
        self.consume(die);
        self.settle();
    }

    /// Moves one checker of the side to move from `from` to `dest`, sending a
    /// lone enemy checker there to its bar.
    fn shift_checker(&mut self, from: usize, dest: Dest)
        requires
            old(self).wf(),
            from <= BAR,
            usable_src(old(self).points_spec(), old(self).bar_spec(), old(self).turn_spec(), from as int),
            dest matches Dest::Point(idx) ==> idx < 24 && !blocked_spec(
                old(self).points_spec(),
                old(self).turn_spec(),
                idx as int,
            ),
        ensures
            final(self).wf(),
            (final(self).points_spec(), final(self).bar_spec(), final(self).off_spec()) == play_board(
                old(self).points_spec(),
                old(self).bar_spec(),
                old(self).off_spec(),
                old(self).turn_spec(),
                from as int,
                dest,
            ),
            final(self).turn_spec() == old(self).turn_spec(),
            final(self).phase_spec() == old(self).phase_spec(),
            final(self).dice_spec() == old(self).dice_spec(),
            final(self).left_spec() == old(self).left_spec(),
    {
        let mover = self.turn;
        proof {
            lemma_checker_sum_mono(self.points@, 0, 24);
        }
        // A lone ENEMY blot on the landing point gets sent to its bar; landing
        // on a lone own checker just stacks (v carries over untouched).
        match dest {
            Dest::Point(idx) => {
                let v = self.points[idx];
                if v == -side_sign(mover) {
                    proof {
                        lemma_sum_set(self.points@, 24, idx as int, 0);
                    }
                    self.points[idx] = 0;
                    if v == 1 {
                        self.bar.0 = self.bar.0 + 1;
                    } else {
                        self.bar.1 = self.bar.1 + 1;
                    }
                }
            },
            Dest::Off => {},
        }
        if from == BAR {
            match mover {
                Side::White => self.bar.0 = self.bar.0 - 1,
                Side::Black => self.bar.1 = self.bar.1 - 1,
            }
        } else {
            proof {
                lemma_sum_set(self.points@, 24, from as int, (self.points@[from as int] - sign_of(mover)) as i8);
            }
            self.points[from] = self.points[from] - side_sign(mover);
        }
        match dest {
            Dest::Point(idx) => {
                proof {
                    lemma_checker_sum_mono(self.points@, 0, 24);
                    lemma_elem_le_sum(self.points@, 24, idx as int);
                    lemma_sum_set(self.points@, 24, idx as int, (self.points@[idx as int] + sign_of(mover)) as i8);
                }
                self.points[idx] = self.points[idx] + side_sign(mover);
            },
            Dest::Off => match mover {
                Side::White => self.off.0 = self.off.0 + 1,
                Side::Black => self.off.1 = self.off.1 + 1,
            },
        }
    }

    /// Playing consumes exactly ONE entry of `die` (matters on doubles).
    fn consume(&mut self, die: u8)
        requires
            old(self).wf(),
            old(self).left_spec().contains(die),
        ensures
            final(self).wf(),
            final(self).left_spec() == old(self).left_spec().remove(first_pos(old(self).left_spec(), die)),
            final(self).points_spec() == old(self).points_spec(),
            final(self).bar_spec() == old(self).bar_spec(),
            final(self).off_spec() == old(self).off_spec(),
            final(self).turn_spec() == old(self).turn_spec(),
            final(self).phase_spec() == old(self).phase_spec(),
            final(self).dice_spec() == old(self).dice_spec(),
    {
        let ghost left0 = self.left@;
        let mut pos: usize = 0;
        while pos < self.left.len() && self.left[pos] != die
            invariant
                0 <= pos <= self.left@.len(),
                self.left@ == left0,
                left0.contains(die),
                forall|j: int| 0 <= j < pos ==> left0[j] != die,
            decreases self.left@.len() - pos,
        {
            pos += 1;
        }
        proof {
            let w = choose|i: int| 0 <= i < left0.len() && left0[i] == die;
            assert(pos < left0.len());
            let f = first_pos(left0, die);
            assert(0 <= pos < left0.len() && left0[pos as int] == die && forall|j: int| 0 <= j < pos ==> left0[j] != die);
            assert(f == pos) by {
                if f < pos {
                    assert(left0[f] != die);
                } else if pos < f {
                    assert(left0[pos as int] == die);
                }
            }
        }
        self.left.remove(pos);
    }

    /// Ends the game on fifteen borne off; otherwise hands the turn over when
    /// no remaining die can be played.
    fn settle(&mut self)
        requires
            old(self).wf(),
            old(self).phase_spec() == Phase::Move,
        ensures
            final(self).wf(),
            final(self).points_spec() == old(self).points_spec(),
            final(self).bar_spec() == old(self).bar_spec(),
            final(self).off_spec() == old(self).off_spec(),
            final(self).dice_spec() == old(self).dice_spec(),
            settled(
                old(self).points_spec(),
                old(self).bar_spec(),
                old(self).off_spec(),
                old(self).turn_spec(),
                old(self).left_spec(),
                *final(self),
            ),
    {
        if self.winner().is_some() {
            self.phase = Phase::GameOver;
        } else {
            let mut any = false;
            let mut k: usize = 0;
            while k < self.left.len()
                invariant
                    self.wf(),
                    0 <= k <= self.left@.len(),
                    any == exists|j: int|
                        0 <= j < k && #[trigger] die_playable(
                            self.points@,
                            self.bar,
                            self.turn,
                            self.left@[j] as int,
                        ),
                decreases self.left@.len() - k,
            {
                if steps_for_die(&self.points, self.bar, self.turn, self.left[k]) {
                    any = true;
                }
                k += 1;
            }
            if self.left.len() == 0 || !any {
                self.end_turn();
            }
        }
    }

    fn end_turn(&mut self)
        requires
            old(self).wf(),
        ensures
            final(self).wf(),
            old(self).ended_turn(*final(self)),
    {
        match self.phase {
            Phase::GameOver => return ,
            _ => {},
        }
        self.left.clear();
        self.phase = Phase::Roll;
        self.turn = self.turn.opposite();
    }
}

fn side_sign(side: Side) -> (r: i8)
    ensures
        r == sign_of(side),
{
    match side {
        Side::White => 1,
        Side::Black => -1,
    }
}

fn bar_count(bar: (u8, u8), side: Side) -> (r: u8)
    ensures
        r == bar_of(bar, side),
{
    match side {
        Side::White => bar.0,
        Side::Black => bar.1,
    }
}

fn owns(points: &[i8; 24], side: Side, idx: usize) -> (r: bool)
    requires
        idx < 24,
    ensures
        r == owns_spec(points@, side, idx as int),
{
    match side {
        Side::White => points[idx] > 0,
        Side::Black => points[idx] < 0,
    }
}

fn entry_blocked(points: &[i8; 24], mover: Side, idx: usize) -> (r: bool)
    requires
        idx < 24,
    ensures
        r == blocked_spec(points@, mover, idx as int),
{
    match mover {
        Side::White => points[idx] <= -2,
        Side::Black => points[idx] >= 2,
    }
}

fn all_home(points: &[i8; 24], bar: (u8, u8), side: Side) -> (r: bool)
    ensures
        r == all_home_spec(points@, bar, side),
{
    if bar_count(bar, side) > 0 {
        return false;
    }
    let mut i: usize = 0;
    while i < 24
        invariant
            0 <= i <= 24,
            bar_of(bar, side) == 0,
            forall|j: int| 0 <= j < i && !in_home(side, j) ==> !#[trigger] owns_spec(points@, side, j),
        decreases 24 - i,
    {
        let home = match side {
            Side::White => 18 <= i && i <= 23,
            Side::Black => i <= 5,
        };
        if !home && owns(points, side, i) {
            return false;
        }
        i += 1;
    }
    true
}

/// `src` holds the furthest checker of `side`.
fn is_furthest(points: &[i8; 24], side: Side, src: usize) -> (r: bool)
    requires
        src < 24,
    ensures
        r == furthest_spec(points@, side, src as int),
{
    if !owns(points, side, src) {
        return false;
    }
    match side {
        Side::White => {
            let mut j: usize = src + 1;
            while j < 24
                invariant
                    src < j <= 24,
                    side == Side::White,
                    owns_spec(points@, side, src as int),
                    forall|k: int| src < k < j ==> !#[trigger] owns_spec(points@, side, k),
                decreases 24 - j,
            {
                if owns(points, side, j) {
                    return false;
                }
                j += 1;
            }
            true
        },
        Side::Black => {
            let mut j: usize = 0;
            while j < src
                invariant
                    0 <= j <= src,
                    src < 24,
                    side == Side::Black,
                    owns_spec(points@, side, src as int),
                    forall|k: int| 0 <= k < j ==> !#[trigger] owns_spec(points@, side, k),
                decreases src - j,
            {
                if owns(points, side, j) {
                    return false;
                }
                j += 1;
            }
            true
        },
    }
}

/// Landing target of one die from `src`, if legal.
fn step_from(points: &[i8; 24], bar: (u8, u8), mover: Side, src: usize, die: u8) -> (r: Option<Dest>)
    requires
        src <= BAR,
        die <= 6,
    ensures
        r == step_spec(points@, bar, mover, src as int, die as int),
{
    if die == 0 {
        return None;
    }
    // While your bar holds checkers, bar entry is the only source.
    if src != BAR && bar_count(bar, mover) > 0 {
        return None;
    }
    let d = die as usize;
    match mover {
        Side::White => {
            if src == BAR {
                let idx = d - 1;
                return if !entry_blocked(points, mover, idx) {
                    Some(Dest::Point(idx))
                } else {
                    None
                };
            }
            let target = src + d;
            if target <= 23 {
                return if !entry_blocked(points, mover, target) {
                    Some(Dest::Point(target))
                } else {
                    None
                };
            }
            // Bear-off territory: needs everything home.
            if !all_home(points, bar, Side::White) {
                return None;
            }
            if d == 24 - src {
                return Some(Dest::Off);
            }
            // Overshoot allowed only from the highest-indexed white checker.
            if is_furthest(points, Side::White, src) {
                Some(Dest::Off)
            } else {
                None
            }
        },
        Side::Black => {
            if src == BAR {
                let idx = 24 - d;
                return if !entry_blocked(points, mover, idx) {
                    Some(Dest::Point(idx))
                } else {
                    None
                };
            }
            if src >= d {
                let target = src - d;
                return if !entry_blocked(points, mover, target) {
                    Some(Dest::Point(target))
                } else {
                    None
                };
            }
            if !all_home(points, bar, Side::Black) {
                return None;
            }
            if d == src + 1 {
                return Some(Dest::Off);
            }
            // Overshoot allowed only from the lowest-indexed black checker.
            if is_furthest(points, Side::Black, src) {
                Some(Dest::Off)
            } else {
                None
            }
        },
    }
}

/// Some legal single step exists for `die` — the auto-pass machinery builds
/// on this.
fn steps_for_die(points: &[i8; 24], bar: (u8, u8), mover: Side, die: u8) -> (r: bool)
    requires
        die <= 6,
    ensures
        r == die_playable(points@, bar, mover, die as int),
{
    if bar_count(bar, mover) > 0 {
        return step_from(points, bar, mover, BAR, die).is_some();
    }
    let mut idx: usize = 0;
    while idx < 24
        invariant
            0 <= idx <= 24,
            bar_of(bar, mover) == 0,
            die <= 6,
            forall|j: int|
                0 <= j < idx ==> !(owns_spec(points@, mover, j) && #[trigger] step_spec(
                    points@,
                    bar,
                    mover,
                    j,
                    die as int,
                ) is Some),
        decreases 24 - idx,
    {
        if owns(points, mover, idx) && step_from(points, bar, mover, idx, die).is_some() {
            return true;
        }
        idx += 1;
    }
    false
}

/// Distinct remaining dice in order of first appearance.
fn unique_dice(left: &Vec<u8>) -> (out: Vec<u8>)
    requires
        forall|k: int| 0 <= k < left@.len() ==> 1 <= #[trigger] left@[k] <= 6,
    ensures
        out@ == unique_spec(left@),
        forall|k: int| 0 <= k < out@.len() ==> 1 <= #[trigger] out@[k] <= 6,
{
    let mut out: Vec<u8> = Vec::new();
    let mut i: usize = 0;
    while i < left.len()
        invariant
            0 <= i <= left@.len(),
            forall|k: int| 0 <= k < left@.len() ==> 1 <= #[trigger] left@[k] <= 6,
            out@ == unique_spec(left@.take(i as int)),
            forall|k: int| 0 <= k < out@.len() ==> 1 <= #[trigger] out@[k] <= 6,
        decreases left@.len() - i,
    {
        let d = left[i];
        let mut seen = false;
        let mut j: usize = 0;
        while j < out.len()
            invariant
                0 <= j <= out@.len(),
                seen == exists|q: int| 0 <= q < j && out@[q] == d,
            decreases out@.len() - j,
        {
            if out[j] == d {
                seen = true;
            }
            j += 1;
        }
        if !seen {
            out.push(d);
        }
        assert(left@.take(i + 1).drop_last() =~= left@.take(i as int));
        i += 1;
    }
    assert(left@.take(left@.len() as int) =~= left@);
    out
}

proof fn lemma_checker_sum_mono(points: Seq<i8>, a: int, b: int)
    requires
        0 <= a <= b,
    ensures
        checker_sum(points, a) <= checker_sum(points, b),
    decreases b - a,
{
    if a < b {
        lemma_checker_sum_mono(points, a, b - 1);
    }
}

proof fn lemma_sum_set(points: Seq<i8>, n: int, i: int, v: i8)
    requires
        0 <= i < points.len(),
        0 <= n <= points.len(),
    ensures
        checker_sum(points.update(i, v), n) == checker_sum(points, n) + if i < n {
            abs8(v) - abs8(points[i])
        } else {
            0
        },
    decreases n,
{
    if n > 0 {
        lemma_sum_set(points, n - 1, i, v);
    }
}

proof fn lemma_side_sum_set(points: Seq<i8>, side: Side, n: int, i: int, v: i8)
    requires
        0 <= i < points.len(),
        0 <= n <= points.len(),
    ensures
        side_sum(points.update(i, v), side, n) == side_sum(points, side, n) + if i < n {
            count_for(v, side) - count_for(points[i], side)
        } else {
            0
        },
    decreases n,
{
    if n > 0 {
        lemma_side_sum_set(points, side, n - 1, i, v);
    }
}

/// What a move touches on the board: it leaves a point of the mover (or
/// the mover's bar) and lands on a point that is not blocked, or off.
proof fn lemma_accepted_step(g: Backgammon, from: int, dest: Dest)
    requires
        g.wf(),
        g.accepts(from, dest),
    ensures
        from == BAR ==> bar_of(g.bar_spec(), g.turn_spec()) > 0,
        from != BAR ==> 0 <= from < 24 && owns_spec(g.points_spec(), g.turn_spec(), from),
        dest matches Dest::Point(idx) ==> idx < 24 && idx != from && !blocked_spec(
            g.points_spec(),
            g.turn_spec(),
            idx as int,
        ),
        forall|i: int| 0 <= i < 24 ==> abs8(#[trigger] g.points_spec()[i]) <= 120,
{
    let ds = g.destinations_spec(from);
    let k = choose|k: int| 0 <= k < ds.len() && #[trigger] ds[k].0 == dest;
    lemma_dests_shape(g.points_spec(), g.bar_spec(), g.turn_spec(), from, unique_spec(g.left_spec()));
    lemma_unique_sub(g.left_spec());
    let die = ds[k].1 as int;
    assert(step_spec(g.points_spec(), g.bar_spec(), g.turn_spec(), from, die) == Some(dest));
    assert(g.left_spec().contains(ds[k].1));
    assert(1 <= die <= 6);
    assert forall|i: int| 0 <= i < 24 implies abs8(#[trigger] g.points_spec()[i]) <= 120 by {
        lemma_elem_le_sum(g.points_spec(), 24, i);
    }
}

/// Playing an accepted move neither creates nor loses a checker: each side
/// keeps its total over the points, the bar and the borne-off tray.
pub proof fn law_move_keeps_checkers(g: Backgammon, from: int, dest: Dest, side: Side)
    requires
        g.wf(),
        g.accepts(from, dest),
    ensures
        ({
            let (p, b, o) = play_board(
                g.points_spec(),
                g.bar_spec(),
                g.off_spec(),
                g.turn_spec(),
                from,
                dest,
            );
            checkers_of(p, b, o, side) == checkers_of(
                g.points_spec(),
                g.bar_spec(),
                g.off_spec(),
                side,
            )
        }),
{
    lemma_accepted_step(g, from, dest);
    lemma_checker_sum_mono(g.points_spec(), 0, 24);
    let p0 = g.points_spec();
    let bar = g.bar_spec();
    let off = g.off_spec();
    let mover = g.turn_spec();
    let sg = sign_of(mover);
    let (p1, bar1) = match dest {
        Dest::Point(idx) => if p0[idx as int] == -sg {
            (
                p0.update(idx as int, 0),
                if p0[idx as int] == 1 {
                    ((bar.0 + 1) as u8, bar.1)
                } else {
                    (bar.0, (bar.1 + 1) as u8)
                },
            )
        } else {
            (p0, bar)
        },
        Dest::Off => (p0, bar),
    };
    if let Dest::Point(idx) = dest {
        if p0[idx as int] == -sg {
            lemma_side_sum_set(p0, side, 24, idx as int, 0);
            let hit: int = if side == mover {
                0
            } else {
                1
            };
            assert(count_for(p0[idx as int], side) == hit) by {
                match mover {
                    Side::White => {},
                    Side::Black => {},
                }
            }
            assert(bar_of(bar1, side) == bar_of(bar, side) + hit) by {
                match mover {
                    Side::White => {},
                    Side::Black => {},
                }
            }
        }
    }
    assert(side_sum(p1, side, 24) + bar_of(bar1, side) == side_sum(p0, side, 24) + bar_of(
        bar,
        side,
    ));
    let (p2, bar2) = if from == BAR {
        (
            p1,
            match mover {
                Side::White => ((bar1.0 - 1) as u8, bar1.1),
                Side::Black => (bar1.0, (bar1.1 - 1) as u8),
            },
        )
    } else {
        (p1.update(from, (p1[from] - sg) as i8), bar1)
    };
    if from != BAR {
        assert(p1[from] == p0[from]);
        lemma_side_sum_set(p1, side, 24, from, (p1[from] - sg) as i8);
    }
    assert(side_sum(p2, side, 24) + bar_of(bar2, side) == side_sum(p1, side, 24) + bar_of(
        bar1,
        side,
    ) - if side == mover {
        1int
    } else {
        0
    });
    match dest {
        Dest::Point(idx) => {
            assert(abs8(p2[idx as int]) <= 120);
            lemma_side_sum_set(p2, side, 24, idx as int, (p2[idx as int] + sg) as i8);
        },
        Dest::Off => {},
    }
}

proof fn lemma_elem_le_sum(points: Seq<i8>, n: int, i: int)
    requires
        0 <= i < n <= points.len(),
    ensures
        abs8(points[i]) <= checker_sum(points, n),
    decreases n,
{
    lemma_checker_sum_mono(points, 0, n - 1);
    if i < n - 1 {
        lemma_elem_le_sum(points, n - 1, i);
    }
}

/// Every entry of `dests_for` pairs a die of `dice` with its landing.
proof fn lemma_dests_shape(points: Seq<i8>, bar: (u8, u8), mover: Side, from: int, dice: Seq<u8>)
    ensures
        forall|j: int| 0 <= j < dests_for(points, bar, mover, from, dice).len() ==> {
            let p = #[trigger] dests_for(points, bar, mover, from, dice)[j];
            &&& step_spec(points, bar, mover, from, p.1 as int) == Some(p.0)
            &&& dice.contains(p.1)
        },
    decreases dice.len(),
{
    if dice.len() > 0 {
        let t = dice.drop_last();
        lemma_dests_shape(points, bar, mover, from, t);
        let prev = dests_for(points, bar, mover, from, t);
        let cur = dests_for(points, bar, mover, from, dice);
        assert forall|j: int| 0 <= j < cur.len() implies {
            let p = #[trigger] cur[j];
            &&& step_spec(points, bar, mover, from, p.1 as int) == Some(p.0)
            &&& dice.contains(p.1)
        } by {
            if j < prev.len() {
                assert(cur[j] == prev[j]);
                let p = prev[j];
                let q = choose|q: int| 0 <= q < t.len() && t[q] == p.1;
                assert(dice[q] == p.1);
            } else {
                assert(dice[dice.len() - 1] == dice.last());
            }
        }
    }
}

/// Every distinct value comes from the input sequence.
proof fn lemma_unique_sub(s: Seq<u8>)
    ensures
        forall|x: u8| #[trigger] unique_spec(s).contains(x) ==> s.contains(x),
    decreases s.len(),
{
    if s.len() > 0 {
        let t = s.drop_last();
        lemma_unique_sub(t);
        assert forall|x: u8| #[trigger] unique_spec(s).contains(x) implies s.contains(x) by {
            let u = unique_spec(t);
            if u.contains(x) {
                let q = choose|q: int| 0 <= q < t.len() && t[q] == x;
                assert(s[q] == x);
            } else {
                assert(s[s.len() - 1] == s.last());
            }
        }
    }
}

/// A legal step lands on a point of the board that is not blocked.
proof fn lemma_step_dest(points: Seq<i8>, bar: (u8, u8), mover: Side, src: int, die: int)
    requires
        0 <= src <= BAR,
        1 <= die <= 6,
        step_spec(points, bar, mover, src, die) is Some,
    ensures
        step_spec(points, bar, mover, src, die) matches Some(Dest::Point(idx)) ==> idx < 24
            && !blocked_spec(points, mover, idx as int),
{
}

proof fn lemma_movable_contains(points: Seq<i8>, bar: (u8, u8), mover: Side, dice: Seq<u8>, n: int, s: int)
    requires
        0 <= s < n <= 25,
        usable_src(points, bar, mover, s),
        src_has_step(points, bar, mover, s, dice),
    ensures
        movable_upto(points, bar, mover, dice, n).contains(s as usize),
    decreases n,
{
    let prev = movable_upto(points, bar, mover, dice, n - 1);
    let cur = movable_upto(points, bar, mover, dice, n);
    if s == n - 1 {
        assert(cur[prev.len() as int] == s as usize);
    } else {
        lemma_movable_contains(points, bar, mover, dice, n - 1, s);
        let k = choose|k: int| 0 <= k < prev.len() && prev[k] == s as usize;
        assert(cur[k] == prev[k]);
    }
}

/// Every move [`Backgammon::move_checker`] accepts starts from a source that
/// [`Backgammon::movable`] lists.
pub proof fn law_accepted_moves_start_from_movable(g: Backgammon, from: int, dest: Dest)
    requires
        g.wf(),
        g.accepts(from, dest),
    ensures
        movable_upto(g.points_spec(), g.bar_spec(), g.turn_spec(), g.left_spec(), 25).contains(
            from as usize,
        ),
{
    let ds = g.destinations_spec(from);
    let k = choose|k: int| 0 <= k < ds.len() && #[trigger] ds[k].0 == dest;
    lemma_dests_shape(g.points_spec(), g.bar_spec(), g.turn_spec(), from, unique_spec(g.left_spec()));
    lemma_unique_sub(g.left_spec());
    let die = ds[k].1;
    assert(step_spec(g.points_spec(), g.bar_spec(), g.turn_spec(), from, die as int) == Some(dest));
    assert(g.left_spec().contains(die));
    let q = choose|q: int| 0 <= q < g.left_spec().len() && g.left_spec()[q] == die;
    assert(step_spec(g.points_spec(), g.bar_spec(), g.turn_spec(), from, g.left_spec()[q] as int) is Some);
    assert(src_has_step(g.points_spec(), g.bar_spec(), g.turn_spec(), from, g.left_spec()));
    assert(usable_src(g.points_spec(), g.bar_spec(), g.turn_spec(), from));
    lemma_movable_contains(g.points_spec(), g.bar_spec(), g.turn_spec(), g.left_spec(), 25, from);
}

} // verus!

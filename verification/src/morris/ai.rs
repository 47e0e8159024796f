//! Pure search for the built-in morris AI: negamax with alpha-beta pruning.
//!
//! Captures ride inside the same ply: a place/move that closes a mill fans
//! out over every legal removal before handing the position to the opponent.

use crate::game_core::{int_view, rank_desc, ranking, Difficulty};
use crate::morris::engine::{
    adjacency, adjacency_spec, mill, mill_spec, opposite_of, side_idx, Action, Morris, Phase, Side, Status, MILL_COUNT,
    POINTS, action_result, capturable_spec,
};
use crate::random::{random_below, shuffle};
use vstd::prelude::*;

verus! {

/// Score magnitude for a decided game; shaved by ply so faster wins rate higher.
const MATE: i32 = 100_000;

/// Window bound safely beyond any reachable score.
const INF: i32 = 200_000;

/// `a` is a place or move the side to move could make: a placement on an
/// empty point while placing, or a legal slide (or flight) of its own stone.
pub open spec fn offered(game: Morris, a: Action) -> bool {
    match a {
        Action::Place(i) => !game.removal_pending_spec() && game.phase_spec() == Phase::Place && i < POINTS
            && game.board_spec()[i as int] is None,
        Action::Move(from, to) => game.legal_moves_spec(from as int).contains(to),
        Action::Remove(_) => false,
    }
}

/// Search depth per strength preset.
pub open spec fn depth_spec(difficulty: Difficulty) -> i32 {
    match difficulty {
        Difficulty::Easy => 1,
        Difficulty::Medium => 3,
        Difficulty::Hard => 5,
    }
}

/// Points `0..n` holding a stone of `side`, ascending.
pub open spec fn points_upto(board: Seq<Option<Side>>, side: Side, n: int) -> Seq<usize>
    decreases n,
{
    if n <= 0 {
        Seq::empty()
    } else {
        points_upto(board, side, n - 1) + if board[n - 1] == Some(side) {
            seq![(n - 1) as usize]
        } else {
            Seq::empty()
        }
    }
}

/// Empty points among `0..n`.
pub open spec fn empties_upto(board: Seq<Option<Side>>, n: int) -> int
    decreases n,
{
    if n <= 0 {
        0
    } else {
        empties_upto(board, n - 1) + if board[n - 1] is None {
            1int
        } else {
            0
        }
    }
}

/// Entries `0..j` of the point list `m` whose point holds `o`.
pub open spec fn tally(board: Seq<Option<Side>>, m: Seq<usize>, o: Option<Side>, j: int) -> int
    decreases j,
{
    if j <= 0 {
        0
    } else {
        tally(board, m, o, j - 1) + if board[m[j - 1] as int] == o {
            1int
        } else {
            0
        }
    }
}

/// Mills `0..k` whose three points all hold `side`.
pub open spec fn mills_upto(board: Seq<Option<Side>>, side: Side, k: int) -> int
    decreases k,
{
    if k <= 0 {
        0
    } else {
        mills_upto(board, side, k - 1) + if tally(board, mill_spec(k - 1), Some(side), 3) == 3 {
            1int
        } else {
            0
        }
    }
}

/// Mills `0..k` with two stones of `side` and one empty point.
pub open spec fn open_twos_upto(board: Seq<Option<Side>>, side: Side, k: int) -> int
    decreases k,
{
    if k <= 0 {
        0
    } else {
        open_twos_upto(board, side, k - 1) + if tally(board, mill_spec(k - 1), Some(side), 3) == 2
            && tally(board, mill_spec(k - 1), None, 3) == 1 {
            1int
        } else {
            0
        }
    }
}

/// Stones among the first `k` of `list` whose every neighbour is taken.
pub open spec fn hemmed_in(board: Seq<Option<Side>>, list: Seq<usize>, k: int) -> int
    decreases k,
{
    if k <= 0 {
        0
    } else {
        hemmed_in(board, list, k - 1) + if tally(
            board,
            adjacency_spec(list[k - 1] as int),
            None,
            adjacency_spec(list[k - 1] as int).len() as int,
        ) == 0 {
            1int
        } else {
            0
        }
    }
}

/// Empty neighbours summed over the first `k` stones of `list`.
pub open spec fn slides_in(board: Seq<Option<Side>>, list: Seq<usize>, k: int) -> int
    decreases k,
{
    if k <= 0 {
        0
    } else {
        slides_in(board, list, k - 1) + tally(
            board,
            adjacency_spec(list[k - 1] as int),
            None,
            adjacency_spec(list[k - 1] as int).len() as int,
        )
    }
}

/// Stones of `side` that cannot slide anywhere; none while it still places
/// or when it flies.
pub open spec fn blocked_spec(g: Morris, side: Side) -> int {
    if g.to_place_spec()[side_idx(side)] > 0 || g.flying_spec(side) {
        0
    } else {
        let stones = points_upto(g.board_spec(), side, 24);
        hemmed_in(g.board_spec(), stones, stones.len() as int)
    }
}

/// Options of `side`, capped at ten: every empty point while placing, every
/// stone and empty point pair while flying, else the free neighbours of its
/// stones.
pub open spec fn mobility_spec(g: Morris, side: Side) -> int {
    let free = empties_upto(g.board_spec(), 24);
    let stones = points_upto(g.board_spec(), side, 24);
    let pairs = if g.to_place_spec()[side_idx(side)] > 0 {
        free
    } else if g.flying_spec(side) {
        free * if stones.len() > 1 {
            stones.len() as int
        } else {
            1
        }
    } else {
        slides_in(g.board_spec(), stones, stones.len() as int)
    };
    if pairs < 10 {
        pairs
    } else {
        10
    }
}

/// Static evaluation for the side to move: stones in play and in hand,
/// whole mills, the foe's blocked stones, open twos, and mobility.
pub open spec fn evaluation(g: Morris) -> int {
    let me = g.turn_spec();
    let foe = opposite_of(me);
    let b = g.board_spec();
    let mine = points_upto(b, me, 24).len() + g.to_place_spec()[side_idx(me)];
    let theirs = points_upto(b, foe, 24).len() + g.to_place_spec()[side_idx(foe)];
    (mine - theirs) * 20 + (mills_upto(b, me, 16) - mills_upto(b, foe, 16)) * 15 + blocked_spec(g, foe) * 6 + (
    open_twos_upto(b, me, 16) - open_twos_upto(b, foe, 16)) * 4 + (mobility_spec(g, me) - mobility_spec(g, foe)) * 2
}

fn depth_of(difficulty: Difficulty) -> (d: i32)
    ensures
        d == depth_spec(difficulty),
        1 <= d <= 5,
{
    match difficulty {
        Difficulty::Easy => 1,
        Difficulty::Medium => 3,
        Difficulty::Hard => 5,
    }
}

/// Points holding a stone of `side`, ascending.
fn stones_of(game: &Morris, side: Side) -> (out: Vec<usize>)
    requires
        game.wf(),
    ensures
        out@ == points_upto(game.board_spec(), side, 24),
        out@.len() <= 24,
        forall|k: int| 0 <= k < out@.len() ==> #[trigger] out@[k] < 24 && game.board_spec()[out@[k] as int] == Some(side),
        forall|p: int| 0 <= p < 24 && game.board_spec()[p] == Some(side) ==> #[trigger] out@.contains(p as usize),
{
    let mut out: Vec<usize> = Vec::new();
    let mut i: usize = 0;
    while i < POINTS
        invariant
            game.wf(),
            0 <= i <= 24,
            out@ == points_upto(game.board_spec(), side, i as int),
            out@.len() <= i,
            forall|k: int| 0 <= k < out@.len() ==> #[trigger] out@[k] < 24 && game.board_spec()[out@[k] as int] == Some(side),
            forall|p: int| 0 <= p < i && game.board_spec()[p] == Some(side) ==> #[trigger] out@.contains(p as usize),
        decreases 24 - i,
    {
        let ghost before = out@;
        if game.point(i) == Some(side) {
            out.push(i);
            assert(out@[out@.len() - 1] == i);
        }
        assert forall|p: int| 0 <= p < i + 1 && game.board_spec()[p] == Some(side) implies #[trigger] out@.contains(p as usize) by {
            if p < i {
                assert(before.contains(p as usize));
                let q = choose|q: int| 0 <= q < before.len() && before[q] == p as usize;
                assert(out@[q] == before[q]);
            }
        }
        i += 1;
    }
    out
}

fn empties(game: &Morris) -> (n: usize)
    requires
        game.wf(),
    ensures
        n == empties_upto(game.board_spec(), 24),
        n <= 24,
{
    let mut n: usize = 0;
    let mut i: usize = 0;
    while i < POINTS
        invariant
            game.wf(),
            0 <= i <= 24,
            n == empties_upto(game.board_spec(), i as int),
            n <= i,
        decreases 24 - i,
    {
        if game.point(i).is_none() {
            n += 1;
        }
        i += 1;
    }
    n
}

/// Mills fully owned by `side`.
fn mills_owned(game: &Morris, side: Side) -> (n: i32)
    requires
        game.wf(),
    ensures
        n == mills_upto(game.board_spec(), side, 16),
        0 <= n <= 16,
{
    let mut n: i32 = 0;
    let mut k: usize = 0;
    while k < MILL_COUNT
        invariant
            game.wf(),
            0 <= k <= 16,
            n == mills_upto(game.board_spec(), side, k as int),
            0 <= n <= k,
        decreases 16 - k,
    {
        let m = mill(k);
        proof {
            reveal_with_fuel(tally, 4);
        }
        if game.point(m[0]) == Some(side) && game.point(m[1]) == Some(side) && game.point(m[2]) == Some(side) {
            n += 1;
        }
        k += 1;
    }
    n
}

/// Two own stones plus one empty on a mill line: one stone from closing it.
fn open_two(game: &Morris, side: Side) -> (n: i32)
    requires
        game.wf(),
    ensures
        n == open_twos_upto(game.board_spec(), side, 16),
        0 <= n <= 16,
{
    let mut n: i32 = 0;
    let mut k: usize = 0;
    while k < MILL_COUNT
        invariant
            game.wf(),
            0 <= k <= 16,
            n == open_twos_upto(game.board_spec(), side, k as int),
            0 <= n <= k,
        decreases 16 - k,
    {
        let m = mill(k);
        let mut mine: usize = 0;
        let mut void: usize = 0;
        let mut j: usize = 0;
        while j < 3
            invariant
                game.wf(),
                0 <= j <= 3,
                m@ == mill_spec(k as int),
                mine == tally(game.board_spec(), m@, Some(side), j as int),
                void == tally(game.board_spec(), m@, None, j as int),
                mine <= j,
                void <= j,
                forall|q: int| 0 <= q < 3 ==> #[trigger] m@[q] < 24,
            decreases 3 - j,
        {
            let p = game.point(m[j]);
            if p == Some(side) {
                mine += 1;
            } else if p.is_none() {
                void += 1;
            }
            j += 1;
        }
        if mine == 2 && void == 1 {
            n += 1;
        }
        k += 1;
    }
    n
}

/// `side` stones with nowhere to slide; a flying side is never blocked.
fn blocked_stones(game: &Morris, side: Side) -> (n: i32)
    requires
        game.wf(),
    ensures
        n == blocked_spec(*game, side),
        0 <= n <= 24,
{
    if game.stones_left(side) > 0 || game.flying(side) {
        return 0;
    }
    let stones = stones_of(game, side);
    let mut n: i32 = 0;
    let mut k: usize = 0;
    while k < stones.len()
        invariant
            game.wf(),
            0 <= k <= stones@.len(),
            stones@.len() <= 24,
            n == hemmed_in(game.board_spec(), stones@, k as int),
            0 <= n <= k,
            forall|q: int| 0 <= q < stones@.len() ==> #[trigger] stones@[q] < 24,
        decreases stones@.len() - k,
    {
        let adj = adjacency(stones[k]);
        let mut all_full = true;
        let mut j: usize = 0;
        while j < adj.len()
            invariant
                game.wf(),
                0 <= j <= adj@.len(),
                all_full == (tally(game.board_spec(), adj@, None, j as int) == 0),
                tally(game.board_spec(), adj@, None, j as int) >= 0,
                forall|q: int| 0 <= q < adj@.len() ==> #[trigger] adj@[q] < 24,
            decreases adj@.len() - j,
        {
            if game.point(adj[j]).is_none() {
                all_full = false;
            }
            j += 1;
        }
        if all_full {
            n += 1;
        }
        k += 1;
    }
    n
}

/// Slide options summed over `side`'s stones; placement counts every empty
/// and flight counts every stone-empty pair. The cap keeps those three
/// counting regimes on one evaluation scale.
fn mobility(game: &Morris, side: Side) -> (m: i32)
    requires
        game.wf(),
    ensures
        m == mobility_spec(*game, side),
        0 <= m <= 10,
{
    let free = empties(game) as i32;
    let stones = stones_of(game, side);
    let pairs: i32 = if game.stones_left(side) > 0 {
        free
    } else if game.flying(side) {
        let n = if stones.len() > 1 {
            stones.len() as i32
        } else {
            1
        };
        proof {
            assert(free * n <= 24 * 24) by (nonlinear_arith)
                requires
                    0 <= free <= 24,
                    1 <= n <= 24,
            ;
            assert(free * n >= 0) by (nonlinear_arith)
                requires
                    0 <= free <= 24,
                    1 <= n <= 24,
            ;
        }
        free * n
    } else {
        let mut total: i32 = 0;
        let mut k: usize = 0;
        while k < stones.len()
            invariant
                game.wf(),
                0 <= k <= stones@.len(),
                stones@.len() <= 24,
                total == slides_in(game.board_spec(), stones@, k as int),
                0 <= total <= 4 * k,
                forall|q: int| 0 <= q < stones@.len() ==> #[trigger] stones@[q] < 24,
            decreases stones@.len() - k,
        {
            let adj = adjacency(stones[k]);
            let mut j: usize = 0;
            let mut open: i32 = 0;
            while j < adj.len()
                invariant
                    game.wf(),
                    0 <= j <= adj@.len(),
                    adj@.len() <= 4,
                    open == tally(game.board_spec(), adj@, None, j as int),
                    0 <= open <= j,
                    forall|q: int| 0 <= q < adj@.len() ==> #[trigger] adj@[q] < 24,
                decreases adj@.len() - j,
            {
                if game.point(adj[j]).is_none() {
                    open += 1;
                }
                j += 1;
            }
            total = total + open;
            k += 1;
        }
        total
    };
    if pairs < 10 {
        pairs
    } else {
        10
    }
}

/// Static evaluation from the side-to-move perspective.
fn evaluate(game: &Morris) -> (v: i32)
    requires
        game.wf(),
    ensures
        v == evaluation(*game),
        -10_000 <= v <= 10_000,
{
    let me = game.turn();
    let foe = me.opposite();
    let mine = stones_of(game, me).len() as i32 + game.stones_left(me) as i32;
    let theirs = stones_of(game, foe).len() as i32 + game.stones_left(foe) as i32;
    (mine - theirs) * 20 + (mills_owned(game, me) - mills_owned(game, foe)) * 15 + blocked_stones(game, foe) * 6 + (
    open_two(game, me) - open_two(game, foe)) * 4 + (mobility(game, me) - mobility(game, foe)) * 2
}

/// Placements on the empty points among `0..n`, ascending.
pub open spec fn places_upto(board: Seq<Option<Side>>, n: int) -> Seq<Action>
    decreases n,
{
    if n <= 0 {
        Seq::empty()
    } else {
        places_upto(board, n - 1) + if board[n - 1] is None {
            seq![Action::Place((n - 1) as usize)]
        } else {
            Seq::empty()
        }
    }
}

/// The slides of the first `k` of `stones`, by stone and then in the order
/// of [`Morris::legal_moves_from`].
pub open spec fn slides_upto(game: Morris, stones: Seq<usize>, k: int) -> Seq<Action>
    decreases k,
{
    if k <= 0 {
        Seq::empty()
    } else {
        slides_upto(game, stones, k - 1) + game.legal_moves_spec(stones[k - 1] as int).map_values(
            |t: usize| Action::Move(stones[k - 1], t),
        )
    }
}

/// The actions the search walks in `game`, in order.
pub open spec fn actions_spec(game: Morris) -> Seq<Action> {
    if !(game.status_spec() is Ongoing) || game.removal_pending_spec() {
        Seq::empty()
    } else if game.phase_spec() == Phase::Place {
        places_upto(game.board_spec(), 24)
    } else {
        let stones = points_upto(game.board_spec(), game.turn_spec(), 24);
        slides_upto(game, stones, stones.len() as int)
    }
}

/// Every place/move action for the side to move; empty once the game is
/// over or while a capture is owed.
fn actions(game: &Morris) -> (out: Vec<Action>)
    requires
        game.wf(),
    ensures
        forall|k: int| 0 <= k < out@.len() ==> offered(*game, #[trigger] out@[k]),
        game.status_spec() is Ongoing ==> forall|a: Action| #[trigger] offered(*game, a) ==> out@.contains(a),
        out@ == actions_spec(*game),
{
    let mut out: Vec<Action> = Vec::new();
    if game.status() != Status::Ongoing || game.removal_pending() {
        return out;
    }
    if game.phase() == Phase::Place {
        let mut i: usize = 0;
        while i < POINTS
            invariant
                game.wf(),
                !game.removal_pending_spec(),
                game.phase_spec() == Phase::Place,
                0 <= i <= 24,
                forall|k: int| 0 <= k < out@.len() ==> offered(*game, #[trigger] out@[k]),
                forall|j: usize| j < i && game.board_spec()[j as int] is None ==> #[trigger] out@.contains(Action::Place(j)),
                out@ == places_upto(game.board_spec(), i as int),
            decreases 24 - i,
        {
            let ghost before = out@;
            if game.point(i).is_none() {
                out.push(Action::Place(i));
                assert(out@[out@.len() - 1] == Action::Place(i));
            }
            assert forall|j: usize| j < i + 1 && game.board_spec()[j as int] is None implies #[trigger] out@.contains(Action::Place(j)) by {
                if j < i {
                    assert(before.contains(Action::Place(j)));
                    let q = choose|q: int| 0 <= q < before.len() && before[q] == Action::Place(j);
                    assert(out@[q] == before[q]);
                }
            }
            i += 1;
        }
        proof {
            assert forall|a: Action| #[trigger] offered(*game, a) implies out@.contains(a) by {
                match a {
                    Action::Place(j) => {},
                    Action::Move(f, t) => {
                        assert(game.legal_moves_spec(f as int).len() == 0);
                    },
                    Action::Remove(_) => {},
                }
            }
        }
    } else {
        let stones = stones_of(game, game.turn());
        let mut k: usize = 0;
        while k < stones.len()
            invariant
                game.wf(),
                0 <= k <= stones@.len(),
                forall|q: int| 0 <= q < stones@.len() ==> #[trigger] stones@[q] < 24,
                forall|q: int| 0 <= q < out@.len() ==> offered(*game, #[trigger] out@[q]),
                forall|f: usize, t: usize|
                    #![trigger out@.contains(Action::Move(f, t))]
                    (exists|p: int| 0 <= p < k && stones@[p] == f) && game.legal_moves_spec(f as int).contains(t)
                        ==> out@.contains(Action::Move(f, t)),
                stones@ == points_upto(game.board_spec(), game.turn_spec(), 24),
                out@ == slides_upto(*game, stones@, k as int),
            decreases stones@.len() - k,
        {
            let from = stones[k];
            let dests = game.legal_moves_from(from);
            let ghost base = out@;
            let mut j: usize = 0;
            while j < dests.len()
                invariant
                    game.wf(),
                    0 <= j <= dests@.len(),
                    dests@ == game.legal_moves_spec(from as int),
                    forall|q: int| 0 <= q < out@.len() ==> offered(*game, #[trigger] out@[q]),
                    out@ == base + dests@.take(j as int).map_values(|t: usize| Action::Move(from, t)),
                decreases dests@.len() - j,
            {
                assert(dests@.contains(dests@[j as int]));
                out.push(Action::Move(from, dests[j]));
                assert(dests@.take(j + 1).map_values(|t: usize| Action::Move(from, t)) =~= dests@.take(
                    j as int,
                ).map_values(|t: usize| Action::Move(from, t)).push(Action::Move(from, dests@[j as int])));
                j += 1;
            }
            assert(dests@.take(dests@.len() as int) =~= dests@);
            assert(slides_upto(*game, stones@, k + 1) =~= base + dests@.map_values(|t: usize| Action::Move(from, t)));
            proof {
                assert forall|f: usize, t: usize|
                    #![trigger out@.contains(Action::Move(f, t))]
                    (exists|p: int| 0 <= p < k + 1 && stones@[p] == f) && game.legal_moves_spec(f as int).contains(t)
                        implies out@.contains(Action::Move(f, t)) by {
                    let p = choose|p: int| 0 <= p < k + 1 && stones@[p] == f;
                    if p < k {
                        assert(base.contains(Action::Move(f, t)));
                        let q = choose|q: int| 0 <= q < base.len() && base[q] == Action::Move(f, t);
                        assert(out@[q] == base[q]);
                    } else {
                        let i = choose|i: int| 0 <= i < dests@.len() && dests@[i] == t;
                        assert(out@[base.len() + i] == Action::Move(f, t));
                    }
                }
            }
            k += 1;
        }
        proof {
            assert forall|a: Action| #[trigger] offered(*game, a) implies out@.contains(a) by {
                match a {
                    Action::Place(j) => {},
                    Action::Move(f, t) => {
                        assert(game.legal_moves_spec(f as int).contains(t));
                        assert(game.board_spec()[f as int] == Some(game.turn_spec()));
                        assert(f < 24);
                        assert(stones@.contains((f as int) as usize));
                        assert(stones@.contains(f));
                        let p = choose|p: int| 0 <= p < stones@.len() && stones@[p] == f;
                    },
                    Action::Remove(_) => {},
                }
            }
        }
    }
    out
}

/// The positions `b` fans out to: one capture each when `b` owes one, else
/// `b` itself.
pub open spec fn spread(b: Morris, kids: Seq<Morris>) -> bool {
    if b.removal_pending_spec() {
        let t = capturable_spec(b.board_spec(), b.turn_spec());
        &&& kids.len() == t.len()
        &&& forall|k: int| 0 <= k < t.len() ==> b.took(t[k], #[trigger] kids[k])
    } else {
        kids == seq![b]
    }
}

/// `kids` are the children of `action`: the action played (as the engine
/// plays it), then every capture it owes.
pub open spec fn expanded(g: Morris, action: Action, kids: Seq<Morris>) -> bool {
    exists|b: Morris| #![trigger action_result(g, action, b)] action_result(g, action, b) && b.wf() && spread(b, kids)
}

/// What the search answers for `g` at depth zero.
pub open spec fn leaf_value(g: Morris, ply: int) -> int {
    if !(g.status_spec() is Ongoing) {
        -(100_000 - ply)
    } else {
        evaluation(g)
    }
}

/// The best of `-leaf_value(kids[k], 1)` over `k < n` (`-INF` for none).
pub open spec fn best_reply(kids: Seq<Morris>, n: int) -> int
    decreases n,
{
    if n <= 0 {
        -200_000
    } else {
        let prev = best_reply(kids, n - 1);
        let s = -leaf_value(kids[n - 1], 1);
        if s > prev {
            s
        } else {
            prev
        }
    }
}

/// `g` after playing `a` as the engine plays it.
pub open spec fn result_of(g: Morris, a: Action) -> Morris {
    choose|b: Morris| action_result(g, a, b)
}

/// `b` after the capture on `i`.
pub open spec fn took_of(b: Morris, i: usize) -> Morris {
    choose|c: Morris| b.took(i, c)
}

/// The children the search expands `a` into: the result of `a`, or, when it
/// owes a capture, one position per capturable stone in the order of
/// [`Morris::removable_points`].
pub open spec fn kids_spec(g: Morris, a: Action) -> Seq<Morris> {
    let b = result_of(g, a);
    if b.removal_pending_spec() {
        let t = capturable_spec(b.board_spec(), b.turn_spec());
        Seq::new(t.len(), |k: int| took_of(b, t[k]))
    } else {
        seq![b]
    }
}

/// What the search answers for `g` at `depth` with `ply` plies played in
/// the window `(alpha, beta)`: the loss score (shaved by `ply`) on a
/// finished board, the evaluation at depth zero or with nothing to play,
/// otherwise the scan over every child of every action.
pub open spec fn value(g: Morris, depth: nat, ply: int, alpha: int, beta: int) -> int
    decreases depth, 2int, 0int, 0int,
{
    if !(g.status_spec() is Ongoing) {
        -(100_000 - ply)
    } else if depth == 0 || actions_spec(g).len() == 0 {
        evaluation(g)
    } else {
        scan_actions(g, depth, ply, alpha, beta, 0, -200_000)
    }
}

/// The action loop of [`value`] from the `i`-th action.
pub open spec fn scan_actions(g: Morris, depth: nat, ply: int, alpha: int, beta: int, i: nat, best: int) -> int
    decreases depth, 1int, 2 * (actions_spec(g).len() - i) + 1, 0int,
{
    if i >= actions_spec(g).len() || depth == 0 {
        best
    } else {
        scan_children(g, depth, ply, alpha, beta, i, 0, best)
    }
}

/// The child loop of [`value`] over the `i`-th action's children from the
/// `c`-th: each child is searched one ply deeper in the negated window,
/// and the whole search answers at once when the window closes.
pub open spec fn scan_children(
    g: Morris,
    depth: nat,
    ply: int,
    alpha: int,
    beta: int,
    i: nat,
    c: nat,
    best: int,
) -> int
    decreases depth, 1int, 2 * (actions_spec(g).len() - i), kids_spec(g, actions_spec(g)[i as int]).len() - c,
{
    let acts = actions_spec(g);
    if i >= acts.len() || depth == 0 {
        best
    } else {
        let kids = kids_spec(g, acts[i as int]);
        if c >= kids.len() {
            scan_actions(g, depth, ply, alpha, beta, i + 1, best)
        } else {
            let score = -value(kids[c as int], (depth - 1) as nat, ply + 1, -beta, -alpha);
            let best2 = if score > best {
                score
            } else {
                best
            };
            let alpha2 = if best2 > alpha {
                best2
            } else {
                alpha
            };
            if alpha2 >= beta {
                best2
            } else {
                scan_children(g, depth, ply, alpha2, beta, i, c + 1, best2)
            }
        }
    }
}

/// Children of `game` after `action`; mill-forming actions fan out over every
/// legal capture so removal consequences stay inside one ply.
fn expand(game: &Morris, action: Action) -> (out: Vec<Morris>)
    requires
        game.wf(),
    ensures
        forall|k: int| 0 <= k < out@.len() ==> (#[trigger] out@[k]).wf(),
        expanded(*game, action, out@),
        out@ == kids_spec(*game, action),
{
    let mut base = *game;
    match action {
        Action::Place(i) => {
            base.place(i);
        },
        Action::Move(from, to) => {
            base.move_stone(from, to);
        },
        Action::Remove(_) => {},
    }
    assert(action_result(*game, action, base));
    proof {
        let rb = result_of(*game, action);
        assert(action_result(*game, action, rb));
        game.lemma_result_unique(action, base, rb);
    }
    let mut out: Vec<Morris> = Vec::new();
    if base.removal_pending() {
        let targets = base.removable_points();
        proof {
            base.lemma_capturable_foes();
        }
        let mut k: usize = 0;
        while k < targets.len()
            invariant
                base.wf(),
                base.removal_pending_spec(),
                targets@ == capturable_spec(base.board_spec(), base.turn_spec()),
                forall|q: int| 0 <= q < targets@.len() ==> base.can_remove(#[trigger] targets@[q] as int),
                0 <= k <= targets@.len(),
                out@.len() == k,
                forall|q: int| 0 <= q < out@.len() ==> (#[trigger] out@[q]).wf(),
                forall|q: int| 0 <= q < k ==> base.took(targets@[q], #[trigger] out@[q]),
                forall|q: int| 0 <= q < k ==> #[trigger] out@[q] == took_of(base, targets@[q]),
            decreases targets@.len() - k,
        {
            let mut child = base;
            let ok = child.remove(targets[k]);
            assert(ok);
            proof {
                let tc = took_of(base, targets@[k as int]);
                assert(base.took(targets@[k as int], tc));
                base.lemma_took_unique(targets@[k as int], child, tc);
            }
            out.push(child);
            k += 1;
        }
        assert(spread(base, out@));
        assert(out@ =~= Seq::new(targets@.len(), |q: int| took_of(base, targets@[q])));
    } else {
        out.push(base);
        assert(out@ =~= seq![base]);
    }
    out
}

fn negamax(game: &Morris, depth: i32, ply: i32, alpha: i32, beta: i32) -> (r: i32)
    requires
        game.wf(),
        0 <= depth <= 5,
        0 <= ply <= 6,
        depth + ply <= 6,
        -INF <= alpha <= INF,
        -INF <= beta <= INF,
    ensures
        -INF <= r <= INF,
        !(game.status_spec() is Ongoing) ==> r == -(MATE - ply),
        game.status_spec() is Ongoing && depth == 0 ==> r == evaluation(*game),
        game.status_spec() is Ongoing && !(exists|a: Action| #[trigger] offered(*game, a)) ==> r == evaluation(*game),
        r == value(*game, depth as nat, ply as int, alpha as int, beta as int),
    decreases depth,
{
    if game.status() != Status::Ongoing {
        // The side to move here is always the defeated one.
        return -(MATE - ply);
    }
    if depth <= 0 {
        return evaluate(game);
    }
    let moves = actions(game);
    if moves.len() == 0 {
        return evaluate(game);
    }
    assert(offered(*game, moves@[0]));
    let mut lo = alpha;
    let mut best: i32 = -INF;
    let mut i: usize = 0;
    while i < moves.len()
        invariant
            moves@ == actions_spec(*game),
            value(*game, depth as nat, ply as int, alpha as int, beta as int) == scan_actions(
                *game,
                depth as nat,
                ply as int,
                lo as int,
                beta as int,
                i as nat,
                best as int,
            ),
            game.wf(),
            game.status_spec() is Ongoing,
            exists|a: Action| #[trigger] offered(*game, a),
            1 <= depth <= 5,
            0 <= ply <= 5,
            depth + ply <= 6,
            0 <= i <= moves@.len(),
            -INF <= lo <= INF,
            -INF <= beta <= INF,
            -INF <= best <= INF,
        decreases moves@.len() - i,
    {
        let children = expand(game, moves[i]);
        let mut c: usize = 0;
        while c < children.len()
            invariant
                moves@ == actions_spec(*game),
                i < moves@.len(),
                children@ == kids_spec(*game, moves@[i as int]),
                value(*game, depth as nat, ply as int, alpha as int, beta as int) == scan_children(
                    *game,
                    depth as nat,
                    ply as int,
                    lo as int,
                    beta as int,
                    i as nat,
                    c as nat,
                    best as int,
                ),
                game.wf(),
                game.status_spec() is Ongoing,
                exists|a: Action| #[trigger] offered(*game, a),
                1 <= depth <= 5,
                0 <= ply <= 5,
                depth + ply <= 6,
                0 <= c <= children@.len(),
                forall|q: int| 0 <= q < children@.len() ==> (#[trigger] children@[q]).wf(),
                -INF <= lo <= INF,
                -INF <= beta <= INF,
                -INF <= best <= INF,
            decreases children@.len() - c,
        {
            let score = -negamax(&children[c], depth - 1, ply + 1, -beta, -lo);
            if score > best {
                best = score;
            }
            if best > lo {
                lo = best;
            }
            if lo >= beta {
                return best;
            }
            c += 1;
        }
        i += 1;
    }
    best
}

/// The best of `-value(kids[c], depth, 1, -INF, INF)` over the first `n`
/// kids (`-INF` for none).
pub open spec fn kids_best(kids: Seq<Morris>, depth: nat, n: int) -> int
    decreases n,
{
    if n <= 0 {
        -200_000
    } else {
        let prev = kids_best(kids, depth, n - 1);
        let s = -value(kids[n - 1], depth, 1, -200_000, 200_000);
        if s > prev {
            s
        } else {
            prev
        }
    }
}

/// Easy's score of each root action: the best full-window value over its
/// children at `depth`.
pub open spec fn easy_scores(g: Morris, root: Seq<Action>, depth: nat) -> Seq<int> {
    Seq::new(
        root.len(),
        |k: int| kids_best(kids_spec(g, root[k]), depth, kids_spec(g, root[k]).len() as int),
    )
}

/// `a` is one of the (up to) four best-ranked actions of `root` by
/// [`easy_scores`], equal scores keeping their order in `root`.
pub open spec fn among_top(g: Morris, root: Seq<Action>, depth: nat, a: Action) -> bool {
    exists|o: Seq<usize>, p: int|
        #![trigger ranking(easy_scores(g, root, depth), o), root[o[p] as int]]
        ranking(easy_scores(g, root, depth), o) && 0 <= p < 4 && p < root.len() && a == root[o[p] as int]
}

/// Best score over the children of `action` (`-INF` when it has none).
fn action_score(game: &Morris, action: Action, depth: i32) -> (r: i32)
    requires
        game.wf(),
        0 <= depth <= 4,
    ensures
        -INF <= r <= INF,
        r == kids_best(kids_spec(*game, action), depth as nat, kids_spec(*game, action).len() as int),
        exists|kids: Seq<Morris>|
            #![trigger expanded(*game, action, kids)]
            expanded(*game, action, kids) && (kids.len() == 0 ==> r == -INF) && (depth == 0 ==> r == best_reply(
                kids,
                kids.len() as int,
            )),
{
    let children = expand(game, action);
    let mut best: i32 = -INF;
    let mut c: usize = 0;
    while c < children.len()
        invariant
            0 <= c <= children@.len(),
            0 <= depth <= 4,
            forall|q: int| 0 <= q < children@.len() ==> (#[trigger] children@[q]).wf(),
            -INF <= best <= INF,
            c == 0 ==> best == -INF,
            depth == 0 ==> best == best_reply(children@, c as int),
            children@ == kids_spec(*game, action),
            best == kids_best(children@, depth as nat, c as int),
        decreases children@.len() - c,
    {
        let s = -negamax(&children[c], depth, 1, -INF, INF);
        if s > best {
            best = s;
        }
        c += 1;
    }
    assert(expanded(*game, action, children@));
    best
}


/// Medium and Hard's root loop over `root` from the `k`-th action: every
/// child of every action is searched one ply shallower with the window's
/// upper edge at minus the best score so far, and an action replaces the
/// pick only with a strictly higher score.
pub open spec fn root_actions(g: Morris, root: Seq<Action>, depth: nat, k: nat, alpha: int, best: Action) -> Action
    decreases 2 * (root.len() - k) + 1, 0int,
{
    if k >= root.len() {
        best
    } else {
        root_children(g, root, depth, k, 0, alpha, best)
    }
}

/// The child loop of [`root_actions`] over the `k`-th action's children
/// from the `c`-th.
pub open spec fn root_children(g: Morris, root: Seq<Action>, depth: nat, k: nat, c: nat, alpha: int, best: Action) -> Action
    decreases 2 * (root.len() - k), kids_spec(g, root[k as int]).len() - c,
{
    if k >= root.len() {
        best
    } else {
        let kids = kids_spec(g, root[k as int]);
        if c >= kids.len() {
            root_actions(g, root, depth, k + 1, alpha, best)
        } else {
            let score = -value(kids[c as int], (depth - 1) as nat, 1, -200_000, -alpha);
            if score > alpha {
                root_children(g, root, depth, k, c + 1, score, root[k as int])
            } else {
                root_children(g, root, depth, k, c + 1, alpha, best)
            }
        }
    }
}

/// The action Medium and Hard play in `g` when the root actions come in
/// the order `root`.
pub open spec fn root_pick(g: Morris, root: Seq<Action>, difficulty: Difficulty) -> Action {
    root_actions(g, root, depth_spec(difficulty) as nat, 0, -200_000, root[0])
}

/// Some ordering of the actions of `g` lets Easy answer `a`.
pub open spec fn easy_from_some_order(g: Morris, difficulty: Difficulty, a: Action) -> bool {
    exists|order: Seq<Action>|
        order.to_multiset() == actions_spec(g).to_multiset() && #[trigger] among_top(
            g,
            order,
            (depth_spec(difficulty) - 1) as nat,
            a,
        )
}

/// Some ordering of the actions of `g` makes [`root_pick`] answer `a`.
pub open spec fn picked_from_some_order(g: Morris, difficulty: Difficulty, a: Action) -> bool {
    exists|order: Seq<Action>|
        order.to_multiset() == actions_spec(g).to_multiset() && order.len() > 0 && #[trigger] root_pick(
            g,
            order,
            difficulty,
        ) == a
}

/// Score every root action exactly and pick uniformly among the top four
/// (Easy) or walk the root with a rising window and take the optimum.
pub fn pick_root(game: &Morris, root: &Vec<Action>, depth: i32, difficulty: Difficulty) -> (a: Action)
    requires
        game.wf(),
        1 <= depth <= 5,
        root@.len() > 0,
        forall|k: int| 0 <= k < root@.len() ==> offered(*game, #[trigger] root@[k]),
    ensures
        offered(*game, a),
        difficulty != Difficulty::Easy ==> a == root_actions(*game, root@, depth as nat, 0, -200_000, root@[0]),
        difficulty == Difficulty::Easy ==> among_top(*game, root@, (depth - 1) as nat, a),
{
    match difficulty {
        Difficulty::Easy => {
            let ghost want = easy_scores(*game, root@, (depth - 1) as nat);
            let mut scores: Vec<i64> = Vec::new();
            let mut k: usize = 0;
            while k < root.len()
                invariant
                    game.wf(),
                    1 <= depth <= 5,
                    0 <= k <= root@.len(),
                    scores@.len() == k,
                    want == easy_scores(*game, root@, (depth - 1) as nat),
                    forall|q: int| 0 <= q < k ==> #[trigger] scores@[q] as int == want[q],
                decreases root@.len() - k,
            {
                let v = action_score(game, root[k], depth - 1);
                scores.push(v as i64);
                k += 1;
            }
            assert(int_view(scores@) =~= want);
            let order = rank_desc(&scores);
            let top = if order.len() < 4 {
                order.len()
            } else {
                4
            };
            let p = random_below(top);
            let a = root[order[p]];
            proof {
                assert(ranking(want, order@));
                assert(a == root@[order@[p as int] as int]);
            }
            a
        },
        _ => {
            let mut best = root[0];
            let mut alpha: i32 = -INF;
            let mut k: usize = 0;
            while k < root.len()
                invariant
                    game.wf(),
                    1 <= depth <= 5,
                    0 <= k <= root@.len(),
                    -INF <= alpha <= INF,
                    offered(*game, best),
                    forall|q: int| 0 <= q < root@.len() ==> offered(*game, #[trigger] root@[q]),
                    root_actions(*game, root@, depth as nat, 0, -200_000, root@[0]) == root_actions(
                        *game,
                        root@,
                        depth as nat,
                        k as nat,
                        alpha as int,
                        best,
                    ),
                decreases root@.len() - k,
            {
                let action = root[k];
                let children = expand(game, action);
                let mut c: usize = 0;
                while c < children.len()
                    invariant
                        k < root@.len(),
                        action == root@[k as int],
                        children@ == kids_spec(*game, action),
                        root_actions(*game, root@, depth as nat, 0, -200_000, root@[0]) == root_children(
                            *game,
                            root@,
                            depth as nat,
                            k as nat,
                            c as nat,
                            alpha as int,
                            best,
                        ),
                        game.wf(),
                        1 <= depth <= 5,
                        0 <= c <= children@.len(),
                        forall|q: int| 0 <= q < children@.len() ==> (#[trigger] children@[q]).wf(),
                        -INF <= alpha <= INF,
                        offered(*game, best),
                        offered(*game, action),
                    decreases children@.len() - c,
                {
                    let score = -negamax(&children[c], depth - 1, 1, -INF, -alpha);
                    if score > alpha {
                        alpha = score;
                        best = action;
                    }
                    c += 1;
                }
                k += 1;
            }
            best
        },
    }
}

/// Next place/move for the side to move, or `None` while a capture is owed
/// or the game has ended.
pub fn best_action(game: &Morris, difficulty: Difficulty) -> (r: Option<Action>)
    requires
        game.wf(),
    ensures
        r matches Some(a) ==> offered(*game, a),
        r is None <==> !(exists|a: Action| #[trigger] offered(*game, a)),
        difficulty != Difficulty::Easy ==> (r matches Some(a) ==> picked_from_some_order(*game, difficulty, a)),
        difficulty == Difficulty::Easy ==> (r matches Some(a) ==> easy_from_some_order(*game, difficulty, a)),
{
    if game.status() != Status::Ongoing || game.removal_pending() {
        proof {
            assert forall|a: Action| !#[trigger] offered(*game, a) by {
                match a {
                    Action::Move(f, t) => {
                        assert(game.legal_moves_spec(f as int).len() == 0);
                    },
                    _ => {},
                }
            }
        }
        return None;
    }
    let mut root = actions(game);
    if root.len() == 0 {
        proof {
            assert forall|a: Action| !#[trigger] offered(*game, a) by {
                if offered(*game, a) {
                    assert(root@.contains(a));
                }
            }
        }
        return None;
    }
    // Shuffle first so ties and Easy picks vary between runs.
    let ghost before = root@;
    shuffle(&mut root);
    proof {
        before.to_multiset_ensures();
        root@.to_multiset_ensures();
        assert forall|k: int| 0 <= k < root@.len() implies offered(*game, #[trigger] root@[k]) by {
            let x = root@[k];
            assert(root@.contains(x));
            assert(root@.to_multiset().count(x) > 0);
            assert(before.contains(x));
        }
        assert(root@.len() == before.len()) by {
            assert(root@.to_multiset().len() == before.to_multiset().len());
        }
    }
    let a = pick_root(game, &root, depth_of(difficulty), difficulty);
    proof {
        assert(root@.to_multiset() == actions_spec(*game).to_multiset());
        if difficulty != Difficulty::Easy {
            assert(root_pick(*game, root@, difficulty) == a);
        } else {
            assert(among_top(*game, root@, (depth_spec(difficulty) - 1) as nat, a));
        }
    }
    Some(a)
}

/// Medium and Hard's loop over the capture targets `options` from the
/// `k`-th: each capture's result is searched to `depth` with the window's
/// upper edge at minus the best score so far, and a target replaces the
/// pick only with a strictly higher score.
pub open spec fn removal_walk(g: Morris, options: Seq<usize>, depth: nat, k: nat, alpha: int, best: usize) -> usize
    decreases options.len() - k,
{
    if k >= options.len() {
        best
    } else {
        let score = -value(took_of(g, options[k as int]), depth, 1, -200_000, -alpha);
        if score > alpha {
            removal_walk(g, options, depth, k + 1, score, options[k as int])
        } else {
            removal_walk(g, options, depth, k + 1, alpha, best)
        }
    }
}

/// Some ordering of the capture targets of `g` makes Medium and Hard's
/// loop answer `r`.
pub open spec fn removal_from_some_order(g: Morris, difficulty: Difficulty, r: usize) -> bool {
    exists|order: Seq<usize>|
        order.to_multiset() == capturable_spec(g.board_spec(), g.turn_spec()).to_multiset() && order.len() > 0
            && #[trigger] removal_walk(g, order, (depth_spec(difficulty) - 1) as nat, 0, -200_000, order[0]) == r
}

/// Easy's score of each capture target: the full-window value after the
/// capture at `depth`, negated.
pub open spec fn removal_scores(g: Morris, options: Seq<usize>, depth: nat) -> Seq<int> {
    Seq::new(options.len(), |k: int| -value(took_of(g, options[k]), depth, 1, -200_000, 200_000))
}

/// `r` is one of the (up to) four best-ranked targets of `options` by
/// [`removal_scores`], equal scores keeping their order in `options`.
pub open spec fn removal_among_top(g: Morris, options: Seq<usize>, depth: nat, r: usize) -> bool {
    exists|o: Seq<usize>, p: int|
        #![trigger ranking(removal_scores(g, options, depth), o), options[o[p] as int]]
        ranking(removal_scores(g, options, depth), o) && 0 <= p < 4 && p < options.len() && r == options[o[p] as int]
}

/// Some ordering of the capture targets of `g` lets Easy answer `r`.
pub open spec fn easy_removal_from_some_order(g: Morris, difficulty: Difficulty, r: usize) -> bool {
    exists|order: Seq<usize>|
        order.to_multiset() == capturable_spec(g.board_spec(), g.turn_spec()).to_multiset() && #[trigger] removal_among_top(
            g,
            order,
            (depth_spec(difficulty) - 1) as nat,
            r,
        )
}

/// Whose stone to take while [`Morris::removal_pending`] holds, honouring the
/// mill-exemption rule by construction of `removable_points`.
pub fn best_removal(game: &Morris, difficulty: Difficulty) -> (r: Option<usize>)
    requires
        game.wf(),
    ensures
        r matches Some(i) ==> game.can_remove(i as int),
        r is None <==> !(exists|i: int| #[trigger] game.can_remove(i)),
        difficulty != Difficulty::Easy ==> (r matches Some(i) ==> removal_from_some_order(*game, difficulty, i)),
        difficulty == Difficulty::Easy ==> (r matches Some(i) ==> easy_removal_from_some_order(*game, difficulty, i)),
{
    if !game.removal_pending() {
        return None;
    }
    let mut options = game.removable_points();
    if options.len() == 0 {
        proof {
            assert forall|i: int| !#[trigger] game.can_remove(i) by {
                if game.can_remove(i) {
                    assert(options@.contains(i as usize));
                }
            }
        }
        return None;
    }
    proof {
        game.lemma_capturable_foes();
    }
    let ghost before = options@;
    shuffle(&mut options);
    proof {
        before.to_multiset_ensures();
        options@.to_multiset_ensures();
        assert forall|k: int| 0 <= k < options@.len() implies game.can_remove(#[trigger] options@[k] as int) by {
            let x = options@[k];
            assert(options@.contains(x));
            assert(options@.to_multiset().count(x) > 0);
            assert(before.contains(x));
        }
        assert(options@.len() == before.len()) by {
            assert(options@.to_multiset().len() == before.to_multiset().len());
        }
    }
    let depth = depth_of(difficulty) - 1;
    match difficulty {
        Difficulty::Easy => {
            let ghost want = removal_scores(*game, options@, depth as nat);
            let mut scores: Vec<i64> = Vec::new();
            let mut k: usize = 0;
            while k < options.len()
                invariant
                    game.wf(),
                    0 <= depth <= 4,
                    0 <= k <= options@.len(),
                    scores@.len() == k,
                    forall|q: int| 0 <= q < options@.len() ==> game.can_remove(#[trigger] options@[q] as int),
                    want == removal_scores(*game, options@, depth as nat),
                    forall|q: int| 0 <= q < k ==> #[trigger] scores@[q] as int == want[q],
                decreases options@.len() - k,
            {
                let r = options[k];
                let mut child = *game;
                child.remove(r);
                proof {
                    assert(game.can_remove(options@[k as int] as int));
                    let tc = took_of(*game, r);
                    assert(game.took(r, tc));
                    game.lemma_took_unique(r, child, tc);
                }
                let v = -negamax(&child, depth, 1, -INF, INF);
                scores.push(v as i64);
                k += 1;
            }
            assert(int_view(scores@) =~= want);
            let order = rank_desc(&scores);
            let top = if order.len() < 4 {
                order.len()
            } else {
                4
            };
            let p = random_below(top);
            let r = options[order[p]];
            proof {
                assert(ranking(want, order@));
                assert(r == options@[order@[p as int] as int]);
                assert(options@.to_multiset() == capturable_spec(game.board_spec(), game.turn_spec()).to_multiset());
                assert(removal_among_top(*game, options@, depth as nat, r));
            }
            Some(r)
        },
        _ => {
            let mut best = options[0];
            let mut alpha: i32 = -INF;
            let mut k: usize = 0;
            while k < options.len()
                invariant
                    game.wf(),
                    0 <= depth <= 4,
                    depth == depth_spec(difficulty) - 1,
                    0 <= k <= options@.len(),
                    -INF <= alpha <= INF,
                    game.can_remove(best as int),
                    forall|q: int| 0 <= q < options@.len() ==> game.can_remove(#[trigger] options@[q] as int),
                    removal_walk(*game, options@, depth as nat, 0, -200_000, options@[0]) == removal_walk(
                        *game,
                        options@,
                        depth as nat,
                        k as nat,
                        alpha as int,
                        best,
                    ),
                decreases options@.len() - k,
            {
                let r = options[k];
                let mut child = *game;
                child.remove(r);
                proof {
                    assert(game.can_remove(options@[k as int] as int));
                    let tc = took_of(*game, r);
                    assert(game.took(r, tc));
                    game.lemma_took_unique(r, child, tc);
                }
                let score = -negamax(&child, depth, 1, -INF, -alpha);
                if score > alpha {
                    alpha = score;
                    best = r;
                }
                k += 1;
            }
            proof {
                assert(options@.to_multiset() == capturable_spec(game.board_spec(), game.turn_spec()).to_multiset());
                assert(removal_walk(*game, options@, (depth_spec(difficulty) - 1) as nat, 0, -200_000, options@[0])
                    == best);
            }
            Some(best)
        },
    }
}

} // verus!

//! Heuristic opponent brain: proposes one legal checker move at a time.
//!
//! [`step`] is the whole API. Given the live engine state it enumerates legal
//! `(source, destination, die)` triples via `movable()`/`destinations()`,
//! scores each candidate by evaluating the position after applying it on a
//! copy, and returns the pick for the caller to feed back through
//! `move_checker`. Returning `None` means "no progress possible" — the caller
//! then lets the engine's auto-pass logic end the turn.
//!
//! Difficulty tiers:
//! - Easy occasionally plays a uniformly random legal move, otherwise samples
//!   uniformly from the top-5 scored moves;
//! - Medium plays greedy argmax every step;
//! - Hard brute-forces all legal move sequences for the whole remaining roll
//!   (depth-first over copies) and plays the first move of the best line,
//!   falling back to Medium when its node budget is exhausted.

use crate::backgammon::engine::{
    Backgammon, Dest, Phase, Side, law_accepted_moves_start_from_movable, movable_upto, opposite_of,
    owns_spec, pip_upto, play_board,
};
use crate::game_core::Difficulty;
use crate::random::random_below;
use vstd::prelude::*;

verus! {

/// Hard stops expanding its search tree after this many visited states and
/// falls back to Medium's greedy pick.
const HARD_NODE_CAP: usize = 4000;

/// Easy ignores its evaluation entirely and plays any legal move this many
/// times in ten.
const EASY_BLUNDERS_IN_TEN: usize = 3;

/// Outside blunders Easy samples uniformly from its best-N scored moves.
const EASY_SHORTLIST: usize = 5;

// Evaluation weights.
/// Owning a point (2+ checkers), anywhere.
const W_MADE_POINT: i64 = 4;

/// Extra for a made point on the side's own home board.
const W_MADE_HOME_EXTRA: i64 = 8;

/// A lone checker deep in the opponent's home board is prime hit bait.
const W_BLOT_OPP_HOME: i64 = 18;

/// Blots in the opponent's outer quadrant; flat cost, no shot analysis.
const W_BLOT_OPP_OUTER: i64 = 12;

/// Blots elsewhere (own outer + own home).
const W_BLOT_ELSEWHERE: i64 = 9;

/// Per opponent checker knocked to the bar by this move.
const W_HIT: i64 = 14;

/// Per own checker borne off by this move.
const W_BEAR_OFF: i64 = 22;

/// Bound on any score the evaluation produces.
const EVAL_BOUND: i64 = 100_000;

/// Medium's value of playing `from` to `dest`: the race lead and structure
/// of the resulting board for the mover, plus 14 per checker hit and 22
/// per checker borne off.
pub open spec fn move_value(state: Backgammon, from: int, dest: Dest) -> int {
    let side = state.turn_spec();
    let opp = opposite_of(side);
    let (p3, bar2, off3) = play_board(state.points_spec(), state.bar_spec(), state.off_spec(), side, from, dest);
    (pip_upto(p3, opp, 24) + 25 * crate::backgammon::engine::bar_of(bar2, opp)) - (pip_upto(p3, side, 24)
        + 25 * crate::backgammon::engine::bar_of(bar2, side)) + structure_sum(p3, side, 24) + 14
        * positive_part(
        crate::backgammon::engine::bar_of(bar2, opp) - crate::backgammon::engine::bar_of(state.bar_spec(), opp),
    ) + 22 * positive_part(off_of(off3, side) - off_of(state.off_spec(), side))
}

/// Next single checker move for the side to play, or `None` when nothing is
/// playable. Called once per AI action slot; apply the result with
/// `move_checker` and call again until the turn ends or this returns `None`.
pub fn step(state: &Backgammon, difficulty: Difficulty) -> (r: Option<(usize, Dest)>)
    requires
        state.wf(),
    ensures
        r matches Some(m) ==> state.accepts(m.0 as int, m.1),
        r is None <==> !has_move(*state),
        difficulty == Difficulty::Medium ==> (r matches Some(m) ==> forall|f: int, d: Dest|
            #[trigger] state.accepts(f, d) ==> move_value(*state, f, d) <= move_value(
                *state,
                m.0 as int,
                m.1,
            )),
        difficulty == Difficulty::Hard && hard_line(*state) is Some ==> r == hard_line(*state),
        difficulty == Difficulty::Hard && hard_line(*state) is None ==> (r matches Some(m) ==> forall|
            f: int,
            d: Dest,
        | #[trigger] state.accepts(f, d) ==> move_value(*state, f, d) <= move_value(*state, m.0 as int, m.1)),
{
    if state.phase() != Phase::Move {
        proof {
            reveal(candidates_spec);
        }
        return None;
    }
    match difficulty {
        Difficulty::Easy => easy_step(state),
        Difficulty::Medium => greedy_step(state),
        // Cap hit / no line found: greedy is always available as a floor.
        Difficulty::Hard => match hard_step(state) {
            Some(m) => Some(m),
            None => greedy_step(state),
        },
    }
}

/// Some checker move is accepted right now.
pub open spec fn has_move(state: Backgammon) -> bool {
    exists|f: int, d: Dest| #[trigger] state.accepts(f, d)
}

/// All `(source, destination, die)` triples currently playable: every
/// accepted move is among them.
fn candidates(state: &Backgammon) -> (out: Vec<(usize, Dest, u8)>)
    requires
        state.wf(),
    ensures
        forall|f: int, d: Dest|
            #[trigger] state.accepts(f, d) ==> exists|q: int|
                0 <= q < out@.len() && out@[q].0 as int == f && out@[q].1 == d,
        out@ == candidates_spec(*state),
{
    reveal(candidates_spec);
    let mut out: Vec<(usize, Dest, u8)> = Vec::new();
    let sources = state.movable();
    let ghost ms = movable_upto(state.points_spec(), state.bar_spec(), state.turn_spec(), state.left_spec(), 25);
    let mut k: usize = 0;
    while k < sources.len()
        invariant
            state.wf(),
            0 <= k <= sources@.len(),
            state.phase_spec() == Phase::Move ==> sources@ == ms,
            state.phase_spec() != Phase::Move ==> sources@.len() == 0,
            ms == movable_upto(state.points_spec(), state.bar_spec(), state.turn_spec(), state.left_spec(), 25),
            out@ == triples_upto(*state, sources@, k as int),
            forall|f: int, d: Dest|
                #![trigger state.accepts(f, d)]
                state.accepts(f, d) && (exists|p: int| 0 <= p < k && sources@[p] as int == f) ==> exists|q: int|
                    0 <= q < out@.len() && out@[q].0 as int == f && out@[q].1 == d,
        decreases sources@.len() - k,
    {
        let src = sources[k];
        let dests = state.destinations(src);
        let ghost before = out@;
        let mut j: usize = 0;
        while j < dests.len()
            invariant
                0 <= j <= dests@.len(),
                dests@ == state.destinations_spec(src as int),
                out@ == before + dests@.take(j as int).map_values(|x: (Dest, u8)| (src, x.0, x.1)),
            decreases dests@.len() - j,
        {
            let (dest, die) = dests[j];
            out.push((src, dest, die));
            assert(dests@.take(j + 1).map_values(|x: (Dest, u8)| (src, x.0, x.1)) =~= dests@.take(
                j as int,
            ).map_values(|x: (Dest, u8)| (src, x.0, x.1)).push((src, dest, die)));
            j += 1;
        }
        assert(dests@.take(dests@.len() as int) =~= dests@);
        assert(triples_upto(*state, sources@, k + 1) =~= before + dests@.map_values(
            |x: (Dest, u8)| (src, x.0, x.1),
        ));
        proof {
            assert forall|f: int, d: Dest|
                #![trigger state.accepts(f, d)]
                state.accepts(f, d) && (exists|p: int| 0 <= p < k + 1 && sources@[p] as int == f) implies exists|q: int|
                    0 <= q < out@.len() && out@[q].0 as int == f && out@[q].1 == d by {
                let p = choose|p: int| 0 <= p < k + 1 && sources@[p] as int == f;
                if p < k {
                    let q = choose|q: int| 0 <= q < before.len() && before[q].0 as int == f && before[q].1 == d;
                    assert(out@[q] == before[q]);
                } else {
                    let ds = state.destinations_spec(f);
                    let i = choose|i: int| 0 <= i < ds.len() && #[trigger] ds[i].0 == d;
                    assert(out@[before.len() + i] == (src, dests@[i].0, dests@[i].1));
                }
            }
        }
        k += 1;
    }
    proof {
        assert forall|f: int, d: Dest| #[trigger] state.accepts(f, d) implies exists|q: int|
            0 <= q < out@.len() && out@[q].0 as int == f && out@[q].1 == d by {
            law_accepted_moves_start_from_movable(*state, f, d);
            let p = choose|p: int| 0 <= p < ms.len() && ms[p] == f as usize;
            assert(sources@[p] as int == f);
        }
    }
    out
}

/// The position after `src`→`dest` is played on a copy of `state`, or
/// `None` when the move is refused.
fn try_move(state: &Backgammon, src: usize, dest: Dest) -> (r: Option<Backgammon>)
    requires
        state.wf(),
    ensures
        r matches Some(next) ==> next.wf() && state.accepts(src as int, dest),
        r is Some <==> state.accepts(src as int, dest),
        r matches Some(next) ==> follows(*state, (src, dest), next),
        r matches Some(next) ==> (next.points_spec(), next.bar_spec(), next.off_spec()) == play_board(
            state.points_spec(),
            state.bar_spec(),
            state.off_spec(),
            state.turn_spec(),
            src as int,
            dest,
        ),
{
    let mut next = state.copy();
    proof {
        Backgammon::lemma_same_accepts(next, *state, src as int, dest);
    }
    proof {
        reveal(follows);
    }
    match next.move_checker(src, dest) {
        Ok(()) => Some(next),
        Err(_) => None,
    }
}

/// Every legal candidate with the evaluation of the position after playing it.
fn scored(state: &Backgammon) -> (out: Vec<(i64, usize, Dest)>)
    requires
        state.wf(),
    ensures
        forall|k: int| 0 <= k < out@.len() ==> state.accepts((#[trigger] out@[k]).1 as int, out@[k].2),
        forall|k: int| 0 <= k < out@.len() ==> -EVAL_BOUND <= (#[trigger] out@[k]).0 <= EVAL_BOUND,
        forall|k: int| 0 <= k < out@.len() ==> (#[trigger] out@[k]).0 == move_value(*state, out@[k].1 as int, out@[k].2),
        forall|f: int, d: Dest| #[trigger] state.accepts(f, d) ==> exists|q: int|
            0 <= q < out@.len() && out@[q].1 as int == f && out@[q].2 == d,
        has_move(*state) ==> out@.len() > 0,
{
    let cands = candidates(state);
    let mut out: Vec<(i64, usize, Dest)> = Vec::new();
    let mut k: usize = 0;
    while k < cands.len()
        invariant
            state.wf(),
            0 <= k <= cands@.len(),
            (exists|q: int| 0 <= q < k && state.accepts(cands@[q].0 as int, #[trigger] cands@[q].1)) ==> out@.len() > 0,
            forall|q: int| 0 <= q < out@.len() ==> state.accepts((#[trigger] out@[q]).1 as int, out@[q].2),
            forall|q: int| 0 <= q < out@.len() ==> -EVAL_BOUND <= (#[trigger] out@[q]).0 <= EVAL_BOUND,
            forall|q: int| 0 <= q < out@.len() ==> (#[trigger] out@[q]).0 == move_value(*state, out@[q].1 as int, out@[q].2),
            forall|f: int, d: Dest|
                #![trigger state.accepts(f, d)]
                state.accepts(f, d) && (exists|p: int| 0 <= p < k && cands@[p].0 as int == f && cands@[p].1 == d)
                    ==> exists|q: int| 0 <= q < out@.len() && out@[q].1 as int == f && out@[q].2 == d,
        decreases cands@.len() - k,
    {
        let (src, dest, _) = cands[k];
        let ghost before = out@;
        match try_move(state, src, dest) {
            Some(next) => {
                let side = state.turn();
                let value = positional_eval(&next, side) + step_delta(state, &next, side);
                out.push((value, src, dest));
                assert(out@[before.len() as int] == (value, src, dest));
            },
            None => {},
        }
        proof {
            assert forall|f: int, d: Dest|
                #![trigger state.accepts(f, d)]
                state.accepts(f, d) && (exists|p: int| 0 <= p < k + 1 && cands@[p].0 as int == f && cands@[p].1 == d)
                    implies exists|q: int| 0 <= q < out@.len() && out@[q].1 as int == f && out@[q].2 == d by {
                let p = choose|p: int| 0 <= p < k + 1 && cands@[p].0 as int == f && cands@[p].1 == d;
                if p < k {
                    let q = choose|q: int| 0 <= q < before.len() && before[q].1 as int == f && before[q].2 == d;
                    assert(out@[q] == before[q]);
                } else {
                    assert(out@[before.len() as int].1 as int == f && out@[before.len() as int].2 == d);
                }
            }
        }
        k += 1;
    }
    proof {
        assert forall|f: int, d: Dest| #[trigger] state.accepts(f, d) implies exists|q: int|
            0 <= q < out@.len() && out@[q].1 as int == f && out@[q].2 == d by {
            let p = choose|p: int| 0 <= p < cands@.len() && cands@[p].0 as int == f && cands@[p].1 == d;
        }
        if has_move(*state) {
            let (f, d) = choose|f: int, d: Dest| #[trigger] state.accepts(f, d);
            let q = choose|q: int| 0 <= q < out@.len() && out@[q].1 as int == f && out@[q].2 == d;
        }
    }
    out
}

fn easy_step(state: &Backgammon) -> (r: Option<(usize, Dest)>)
    requires
        state.wf(),
    ensures
        r matches Some(m) ==> state.accepts(m.0 as int, m.1),
        has_move(*state) ==> r is Some,
{
    let list = scored(state);
    if list.len() == 0 {
        return None;
    }
    if random_below(10) < EASY_BLUNDERS_IN_TEN {
        let i = random_below(list.len());
        return Some((list[i].1, list[i].2));
    }
    // Stable ordering by value, highest first.
    let mut order: Vec<usize> = Vec::new();
    let mut i: usize = 0;
    while i < list.len()
        invariant
            0 <= i <= list@.len(),
            order@.len() == i,
            forall|q: int| 0 <= q < order@.len() ==> #[trigger] order@[q] < list@.len(),
        decreases list@.len() - i,
    {
        let mut pos: usize = order.len();
        while pos > 0 && list[order[pos - 1]].0 < list[i].0
            invariant
                0 <= pos <= order@.len(),
                i < list@.len(),
                forall|q: int| 0 <= q < order@.len() ==> #[trigger] order@[q] < list@.len(),
            decreases pos,
        {
            pos -= 1;
        }
        order.insert(pos, i);
        i += 1;
    }
    let top = if order.len() < EASY_SHORTLIST {
        order.len()
    } else {
        EASY_SHORTLIST
    };
    let pick = order[random_below(top)];
    Some((list[pick].1, list[pick].2))
}

fn greedy_step(state: &Backgammon) -> (r: Option<(usize, Dest)>)
    requires
        state.wf(),
    ensures
        r matches Some(m) ==> state.accepts(m.0 as int, m.1),
        has_move(*state) ==> r is Some,
        r matches Some(m) ==> forall|f: int, d: Dest|
            #[trigger] state.accepts(f, d) ==> move_value(*state, f, d) <= move_value(*state, m.0 as int, m.1),
{
    let list = scored(state);
    if list.len() == 0 {
        return None;
    }
    // The last of the best values wins.
    let mut best: usize = 0;
    let mut k: usize = 1;
    while k < list.len()
        invariant
            1 <= k <= list@.len(),
            best < k,
            forall|j: int| 0 <= j < k ==> (#[trigger] list@[j]).0 <= list@[best as int].0,
        decreases list@.len() - k,
    {
        if list[k].0 >= list[best].0 {
            best = k;
        }
        k += 1;
    }
    proof {
        assert forall|f: int, d: Dest| #[trigger] state.accepts(f, d) implies move_value(*state, f, d)
            <= move_value(*state, list@[best as int].1 as int, list@[best as int].2) by {
            let q = choose|q: int| 0 <= q < list@.len() && list@[q].1 as int == f && list@[q].2 == d;
            assert(list@[q].0 <= list@[best as int].0);
        }
    }
    Some((list[best].1, list[best].2))
}

/// The `(source, destination, die)` triples of the first `k` of `sources`,
/// by source and then in the order of [`Backgammon::destinations`].
pub open spec fn triples_upto(g: Backgammon, sources: Seq<usize>, k: int) -> Seq<(usize, Dest, u8)>
    decreases k,
{
    if k <= 0 {
        Seq::empty()
    } else {
        triples_upto(g, sources, k - 1) + g.destinations_spec(sources[k - 1] as int).map_values(
            |x: (Dest, u8)| (sources[k - 1], x.0, x.1),
        )
    }
}

/// The candidate triples the AI walks, in order.
#[verifier::opaque]
pub open spec fn candidates_spec(g: Backgammon) -> Seq<(usize, Dest, u8)> {
    if g.phase_spec() == Phase::Move {
        let ms = movable_upto(g.points_spec(), g.bar_spec(), g.turn_spec(), g.left_spec(), 25);
        triples_upto(g, ms, ms.len() as int)
    } else {
        Seq::empty()
    }
}

/// `a` and `b` agree on everything the rules read.
pub open spec fn same_view(a: Backgammon, b: Backgammon) -> bool {
    &&& a.points_spec() == b.points_spec()
    &&& a.bar_spec() == b.bar_spec()
    &&& a.off_spec() == b.off_spec()
    &&& a.turn_spec() == b.turn_spec()
    &&& a.phase_spec() == b.phase_spec()
    &&& a.dice_spec() == b.dice_spec()
    &&& a.left_spec() == b.left_spec()
}

/// `next` is `g` after playing `m`.
#[verifier::opaque]
pub open spec fn follows(g: Backgammon, m: (usize, Dest), next: Backgammon) -> bool {
    g.moved(m.0 as int, m.1, next)
}

/// A position that follows `g` by playing `m`, when there is one.
pub open spec fn child_of(g: Backgammon, m: (usize, Dest)) -> Backgammon {
    choose|c: Backgammon| g.moved(m.0 as int, m.1, c)
}

/// The static score Hard adds at the end of a line.
pub open spec fn positional(g: Backgammon, side: Side) -> int {
    pip_count(g, opposite_of(side)) - pip_count(g, side) + structure_sum(g.points_spec(), side, 24)
}

/// The sentinel a blown node budget answers.
pub open spec fn blown() -> int {
    i64::MIN as int
}

/// Best total over the lines that play out the rest of the roll from `g`
/// for `side`, with `acc` banked and `nodes` visited before, and the nodes
/// visited after: each visit costs a node, a visit past the cap answers
/// [`blown`], and a position with nothing to play scores `acc` plus its
/// [`positional`] score.
pub open spec fn line_value(g: Backgammon, side: Side, acc: int, nodes: int) -> (int, int)
    decreases 4000 - nodes, 1int, 0int,
{
    let n1 = nodes + 1;
    if n1 > 4000 {
        (blown(), n1)
    } else if g.phase_spec() != Phase::Move || candidates_spec(g).len() == 0 {
        (acc + positional(g, side), n1)
    } else {
        line_scan(g, side, acc, n1, n1, 0, blown())
    }
}

/// The candidate loop of [`line_value`] from the `k`-th triple with `nodes`
/// visited (never fewer than `floor`, what the loop started with) and the
/// best total so far; a blown budget ends the whole search.
pub open spec fn line_scan(g: Backgammon, side: Side, acc: int, nodes: int, floor: int, k: nat, best: int) -> (
    int,
    int,
)
    decreases 4000 - floor + 1, 0int, candidates_spec(g).len() - k,
{
    let cs = candidates_spec(g);
    if k >= cs.len() || nodes < floor || nodes > 4000 || floor > 4000 {
        (best, nodes)
    } else {
        let m = (cs[k as int].0, cs[k as int].1);
        if g.accepts(m.0 as int, m.1) && exists|c: Backgammon| #[trigger] g.moved(m.0 as int, m.1, c) {
            let next = child_of(g, m);
            let (v, n2) = line_value(next, side, acc + step_reward(g, next, side), nodes);
            let best2 = if v > best {
                v
            } else {
                best
            };
            if n2 > 4000 {
                (blown(), n2)
            } else {
                line_scan(g, side, acc, n2, floor, k + 1, best2)
            }
        } else {
            line_scan(g, side, acc, nodes, floor, k + 1, best)
        }
    }
}

/// Hard's root loop from the `k`-th triple: each playable triple's line is
/// searched with its own rewards banked, a strictly better total replaces
/// the pick, and a blown budget gives up (`None`).
pub open spec fn hard_pick(g: Backgammon, side: Side, k: nat, nodes: int, best: Option<(int, usize, Dest)>) -> Option<
    (usize, Dest),
>
    decreases candidates_spec(g).len() - k,
{
    let cs = candidates_spec(g);
    if k >= cs.len() {
        match best {
            Some((_, f, d)) => Some((f, d)),
            None => None,
        }
    } else {
        let m = (cs[k as int].0, cs[k as int].1);
        if g.accepts(m.0 as int, m.1) && exists|c: Backgammon| #[trigger] g.moved(m.0 as int, m.1, c) {
            let next = child_of(g, m);
            let (v, n2) = line_value(next, side, step_reward(g, next, side), nodes);
            let better = match best {
                None => true,
                Some((b, _, _)) => v > b,
            };
            let best2 = if better {
                Some((v, m.0, m.1))
            } else {
                best
            };
            if n2 > 4000 {
                None
            } else {
                hard_pick(g, side, k + 1, n2, best2)
            }
        } else {
            hard_pick(g, side, k + 1, nodes, best)
        }
    }
}

/// The move Hard settles on in `g` before any fallback, `None` when its
/// search gives up or finds nothing.
pub open spec fn hard_line(g: Backgammon) -> Option<(usize, Dest)> {
    hard_pick(g, g.turn_spec(), 0, 0, None)
}

/// Two positions that follow view-equal positions by the same move agree.
proof fn lemma_moved_same_view(a: Backgammon, b: Backgammon, m: (usize, Dest), ca: Backgammon, cb: Backgammon)
    requires
        same_view(a, b),
        a.moved(m.0 as int, m.1, ca),
        b.moved(m.0 as int, m.1, cb),
    ensures
        same_view(ca, cb),
        step_reward(a, ca, opposite_of(opposite_of(a.turn_spec()))) == step_reward(b, cb, a.turn_spec()),
        forall|side: Side| step_reward(a, ca, side) == step_reward(b, cb, side),
{
    assert(a.destinations_spec(m.0 as int) == b.destinations_spec(m.0 as int));
    if ca.left_spec().len() == 0 {
        assert(ca.left_spec() =~= cb.left_spec());
    }
}

/// View-equal positions have the same candidate triples.
proof fn lemma_candidates_same(a: Backgammon, b: Backgammon)
    requires
        same_view(a, b),
    ensures
        candidates_spec(a) == candidates_spec(b),
        forall|f: int, d: Dest| a.accepts(f, d) == b.accepts(f, d),
        forall|f: int, d: Dest, c: Backgammon| a.moved(f, d, c) == b.moved(f, d, c),
{
    reveal(candidates_spec);
    let ms = movable_upto(a.points_spec(), a.bar_spec(), a.turn_spec(), a.left_spec(), 25);
    lemma_triples_same(a, b, ms, ms.len() as int);
    assert forall|f: int, d: Dest| a.accepts(f, d) == b.accepts(f, d) by {
        assert(a.destinations_spec(f) == b.destinations_spec(f));
    }
    assert forall|f: int, d: Dest, c: Backgammon| a.moved(f, d, c) == b.moved(f, d, c) by {
        assert(a.destinations_spec(f) == b.destinations_spec(f));
    }
}

proof fn lemma_triples_same(a: Backgammon, b: Backgammon, sources: Seq<usize>, k: int)
    requires
        same_view(a, b),
    ensures
        triples_upto(a, sources, k) == triples_upto(b, sources, k),
    decreases k,
{
    if k > 0 {
        lemma_triples_same(a, b, sources, k - 1);
        assert(a.destinations_spec(sources[k - 1] as int) == b.destinations_spec(sources[k - 1] as int));
    }
}

/// The line search reads nothing of a position but its view.
proof fn lemma_line_same(a: Backgammon, b: Backgammon, side: Side, acc: int, nodes: int)
    requires
        same_view(a, b),
    ensures
        line_value(a, side, acc, nodes) == line_value(b, side, acc, nodes),
    decreases 4000 - nodes, 1int, 0int,
{
    lemma_candidates_same(a, b);
    assert(positional(a, side) == positional(b, side));
    let n1 = nodes + 1;
    if n1 <= 4000 && a.phase_spec() == Phase::Move && candidates_spec(a).len() > 0 {
        lemma_scan_same(a, b, side, acc, n1, n1, 0, blown());
    }
}

#[verifier::rlimit(40)]
proof fn lemma_scan_same(a: Backgammon, b: Backgammon, side: Side, acc: int, nodes: int, floor: int, k: nat, best: int)
    requires
        same_view(a, b),
    ensures
        line_scan(a, side, acc, nodes, floor, k, best) == line_scan(b, side, acc, nodes, floor, k, best),
    decreases 4000 - floor + 1, 0int, candidates_spec(a).len() - k,
{
    reveal(candidates_spec);
    let ms = movable_upto(a.points_spec(), a.bar_spec(), a.turn_spec(), a.left_spec(), 25);
    lemma_triples_same(a, b, ms, ms.len() as int);
    let cs = candidates_spec(a);
    assert(cs == candidates_spec(b));
    if !(k >= cs.len() || nodes < floor || nodes > 4000 || floor > 4000) {
        let m = (cs[k as int].0, cs[k as int].1);
        let f = m.0 as int;
        let d = m.1;
        assert(a.destinations_spec(f) == b.destinations_spec(f));
        assert(a.accepts(f, d) == b.accepts(f, d));
        let ea = exists|c: Backgammon| #[trigger] a.moved(f, d, c);
        let eb = exists|c: Backgammon| #[trigger] b.moved(f, d, c);
        assert(ea == eb) by {
            if ea {
                let w = choose|c: Backgammon| #[trigger] a.moved(f, d, c);
                assert(b.moved(f, d, w));
            }
            if eb {
                let w = choose|c: Backgammon| #[trigger] b.moved(f, d, c);
                assert(a.moved(f, d, w));
            }
        }
        if a.accepts(f, d) && ea {
            let ca = child_of(a, m);
            let cb = child_of(b, m);
            assert(a.moved(f, d, ca));
            assert(b.moved(f, d, cb));
            lemma_moved_same_view(a, b, m, ca, cb);
            let r = step_reward(a, ca, side);
            assert(r == step_reward(b, cb, side));
            lemma_line_same(ca, cb, side, acc + r, nodes);
            let (v, n2) = line_value(ca, side, acc + r, nodes);
            let best2 = if v > best {
                v
            } else {
                best
            };
            if n2 <= 4000 {
                lemma_scan_same(a, b, side, acc, n2, floor, k + 1, best2);
            }
        } else {
            lemma_scan_same(a, b, side, acc, nodes, floor, k + 1, best);
        }
    }
}

/// Hard's best so far, its total taken as an integer.
pub open spec fn widened(best: Option<(i64, usize, Dest)>) -> Option<(int, usize, Dest)> {
    match best {
        Some((v, f, d)) => Some((v as int, f, d)),
        None => None,
    }
}

/// `next`, which follows `state` by `m`, is searched exactly as the
/// position the specification picks for `m`.
proof fn lemma_follows_child(state: Backgammon, m: (usize, Dest), next: Backgammon, side: Side, acc: int, nodes: int)
    requires
        follows(state, m, next),
    ensures
        exists|c: Backgammon| #[trigger] state.moved(m.0 as int, m.1, c),
        step_reward(state, next, side) == step_reward(state, child_of(state, m), side),
        line_value(next, side, acc, nodes) == line_value(child_of(state, m), side, acc, nodes),
{
    reveal(follows);
    assert(state.moved(m.0 as int, m.1, next));
    let c = child_of(state, m);
    assert(state.moved(m.0 as int, m.1, c));
    lemma_moved_same_view(state, state, m, next, c);
    lemma_line_same(next, c, side, acc, nodes);
}

/// First move of the best full-roll line, or `None` when the node cap was hit
/// before every root candidate got a fair look.
fn hard_step(state: &Backgammon) -> (r: Option<(usize, Dest)>)
    requires
        state.wf(),
    ensures
        r matches Some(m) ==> state.accepts(m.0 as int, m.1),
        !has_move(*state) ==> r is None,
        r == hard_line(*state),
{
    let side = state.turn();
    let cands = candidates(state);
    let mut nodes: usize = 0;
    let mut best: Option<(i64, usize, Dest)> = None;
    let mut k: usize = 0;
    while k < cands.len()
        invariant
            state.wf(),
            side == state.turn_spec(),
            cands@ == candidates_spec(*state),
            0 <= k <= cands@.len(),
            nodes <= HARD_NODE_CAP,
            best matches Some(b) ==> state.accepts(b.1 as int, b.2),
            hard_line(*state) == hard_pick(*state, side, k as nat, nodes as int, widened(best)),
        decreases cands@.len() - k,
    {
        let (src, dest, _) = cands[k];
        match try_move(state, src, dest) {
            Some(next) => {
                let delta = step_delta(state, &next, side);
                proof {
                    lemma_follows_child(*state, (src, dest), next, side, delta as int, nodes as int);
                }
                let value = search_remaining(&next, side, delta, &mut nodes);
                let better = match best {
                    None => true,
                    Some((b, _, _)) => value > b,
                };
                if better {
                    best = Some((value, src, dest));
                }
                if nodes > HARD_NODE_CAP {
                    return None;
                }
            },
            None => {},
        }
        k += 1;
    }
    match best {
        Some((_, src, dest)) => Some((src, dest)),
        None => None,
    }
}

/// Best total score reachable from `state` by playing out the remaining dice
/// (`acc` carries hit/bear-off bonuses already banked along the way). Only
/// `side` moves until the turn ends, so this is a plain max over sequences.
/// Returns `i64::MIN` as an inert "budget blown" sentinel; [`hard_step`]
/// discards the whole search when the cap trips.
fn search_remaining(state: &Backgammon, side: Side, acc: i64, nodes: &mut usize) -> (r: i64)
    requires
        state.wf(),
        *old(nodes) <= HARD_NODE_CAP,
        0 <= acc <= 9180 * (*old(nodes) + 1),
    ensures
        *final(nodes) >= *old(nodes) + 1,
        r == i64::MIN || -EVAL_BOUND - 1_000_000 <= r <= 9180 * (HARD_NODE_CAP + 2) + EVAL_BOUND,
        (r as int, *final(nodes) as int) == line_value(*state, side, acc as int, *old(nodes) as int),
    decreases HARD_NODE_CAP - *old(nodes),
{
    *nodes = *nodes + 1;
    if *nodes > HARD_NODE_CAP {
        return i64::MIN;
    }
    let cands = candidates(state);
    if state.phase() != Phase::Move || cands.len() == 0 {
        return acc + positional_eval(state, side);
    }
    let mut best: i64 = i64::MIN;
    let mut k: usize = 0;
    while k < cands.len()
        invariant
            state.wf(),
            cands@ == candidates_spec(*state),
            0 <= k <= cands@.len(),
            1 <= *nodes <= HARD_NODE_CAP,
            *nodes >= *old(nodes) + 1,
            0 <= acc <= 9180 * (*old(nodes) + 1),
            best == i64::MIN || -EVAL_BOUND - 1_000_000 <= best <= 9180 * (HARD_NODE_CAP + 2) + EVAL_BOUND,
            line_value(*state, side, acc as int, *old(nodes) as int) == line_scan(
                *state,
                side,
                acc as int,
                *nodes as int,
                *old(nodes) + 1,
                k as nat,
                best as int,
            ),
        decreases cands@.len() - k,
    {
        let (src, dest, _) = cands[k];
        match try_move(state, src, dest) {
            Some(next) => {
                let delta = step_delta(state, &next, side);
                proof {
                    lemma_follows_child(*state, (src, dest), next, side, acc + delta, *nodes as int);
                }
                let child = search_remaining(&next, side, acc + delta, nodes);
                if child > best {
                    best = child;
                }
                if *nodes > HARD_NODE_CAP {
                    return i64::MIN;
                }
            },
            None => {},
        }
        k += 1;
    }
    best
}

/// Pip count of `side`: checkers on points by distance still to travel, and
/// 25 for each checker on the bar.
pub open spec fn pip_count(g: Backgammon, side: Side) -> int {
    pip_upto(g.points_spec(), side, 24) + 25 * crate::backgammon::engine::bar_of(g.bar_spec(), side)
}

/// Quadrant of point `idx` along `side`'s direction of travel.
pub open spec fn quadrant_of(side: Side, idx: int) -> int {
    match side {
        Side::White => idx / 6,
        Side::Black => 3 - idx / 6,
    }
}

/// Cost of a lone `side` checker on point `idx`.
pub open spec fn blot_cost_of(side: Side, idx: int) -> int {
    let q = quadrant_of(side, idx);
    if q == 0 {
        18
    } else if q == 1 {
        12
    } else {
        9
    }
}

/// Structural value of point `idx` for `side`: a made point earns 4, and 8
/// more on the home board; a blot costs by quadrant.
pub open spec fn point_value(points: Seq<i8>, side: Side, idx: int) -> int {
    let v = points[idx];
    if owns_spec(points, side, idx) {
        if v >= 2 || v <= -2 {
            4 + if quadrant_of(side, idx) == 3 {
                8int
            } else {
                0int
            }
        } else {
            -blot_cost_of(side, idx)
        }
    } else {
        0
    }
}

/// Structural value of the first `n` points.
pub open spec fn structure_sum(points: Seq<i8>, side: Side, n: int) -> int
    decreases n,
{
    if n <= 0 {
        0
    } else {
        structure_sum(points, side, n - 1) + point_value(points, side, n - 1)
    }
}

/// Static evaluation from `side`'s perspective: race lead plus structure.
fn positional_eval(state: &Backgammon, side: Side) -> (s: i64)
    requires
        state.wf(),
    ensures
        s == pip_count(*state, opposite_of(side)) - pip_count(*state, side) + structure_sum(
            state.points_spec(),
            side,
            24,
        ),
        -10_000 <= s <= 10_000,
{
    let pip_edge = state.pip(side) as i64 - state.pip(side.opposite()) as i64;
    let mut s: i64 = -pip_edge;
    let points = state.points();
    let mut idx: usize = 0;
    while idx < 24
        invariant
            0 <= idx <= 24,
            points@ == state.points_spec(),
            -6000 - 18 * idx <= s <= 6000 + 12 * idx,
            s == pip_count(*state, opposite_of(side)) - pip_count(*state, side) + structure_sum(
                state.points_spec(),
                side,
                idx as int,
            ),
        decreases 24 - idx,
    {
        let v = points[idx];
        if v != 0 && owner(v) == side {
            if v >= 2 || v <= -2 {
                s = s + W_MADE_POINT;
                if quadrant(side, idx) == 3 {
                    s = s + W_MADE_HOME_EXTRA;
                }
            } else {
                s = s - blot_cost(side, idx);
            }
        }
        idx += 1;
    }
    s
}

/// Checkers of `side` borne off.
pub open spec fn off_of(off: (u8, u8), side: Side) -> int {
    match side {
        Side::White => off.0 as int,
        Side::Black => off.1 as int,
    }
}

pub open spec fn positive_part(x: int) -> int {
    if x > 0 {
        x
    } else {
        0
    }
}

/// Instant reward of moving from `before` to `after` for `side`: 14 per
/// enemy checker sent to the bar, 22 per own checker borne off.
pub open spec fn step_reward(before: Backgammon, after: Backgammon, side: Side) -> int {
    let opp = opposite_of(side);
    14 * positive_part(
        crate::backgammon::engine::bar_of(after.bar_spec(), opp) - crate::backgammon::engine::bar_of(
            before.bar_spec(),
            opp,
        ),
    ) + 22 * positive_part(off_of(after.off_spec(), side) - off_of(before.off_spec(), side))
}

/// Instant rewards of one applied move: hits and bear-offs. Compared between
/// the pre-move and post-move states so they stack with the static eval.
fn step_delta(before: &Backgammon, after: &Backgammon, side: Side) -> (d: i64)
    ensures
        d == step_reward(*before, *after, side),
        0 <= d <= 36 * 255,
{
    let opp = side.opposite();
    let hits = bar_of(after, opp) as i64 - bar_of(before, opp) as i64;
    let my_offs = match side {
        Side::White => after.off().0 as i64 - before.off().0 as i64,
        Side::Black => after.off().1 as i64 - before.off().1 as i64,
    };
    let h = if hits > 0 {
        hits
    } else {
        0
    };
    let o = if my_offs > 0 {
        my_offs
    } else {
        0
    };
    W_HIT * h + W_BEAR_OFF * o
}

/// Quadrants counted along `side`'s direction of travel:
/// 0 = opponent's home board, 1 = opponent's outer board,
/// 2 = own outer board, 3 = own home board.
fn quadrant(side: Side, idx: usize) -> (q: usize)
    requires
        idx < 24,
    ensures
        q == quadrant_of(side, idx as int),
        q <= 3,
{
    match side {
        Side::White => idx / 6,
        Side::Black => 3 - idx / 6,
    }
}

fn blot_cost(side: Side, idx: usize) -> (c: i64)
    requires
        idx < 24,
    ensures
        c == blot_cost_of(side, idx as int),
        9 <= c <= 18,
{
    match quadrant(side, idx) {
        0 => W_BLOT_OPP_HOME,
        1 => W_BLOT_OPP_OUTER,
        _ => W_BLOT_ELSEWHERE,
    }
}

fn owner(v: i8) -> (r: Side)
    ensures
        r == if v > 0 {
            Side::White
        } else {
            Side::Black
        },
{
    if v > 0 {
        Side::White
    } else {
        Side::Black
    }
}

fn bar_of(state: &Backgammon, side: Side) -> (r: u8)
    ensures
        r == crate::backgammon::engine::bar_of(state.bar_spec(), side),
{
    match side {
        Side::White => state.bar().0,
        Side::Black => state.bar().1,
    }
}

} // verus!

//! Heuristic opponent for Go. Heuristic, not strong — it counts liberties,
//! captures and contact fights with fixed weights, and blunders on purpose
//! at lower difficulties.

use crate::game_core::{
    first_argmax, first_max, int_view, last_argmax, last_max, lemma_first_max_unique, lemma_last_max_unique,
    rank_desc, ranking, Difficulty,
};
use crate::go::engine::{
    count_of, group_and_liberties, group_of, lemma_points_len, liberties_of, nbrs, neighbors,
    opponent_of, trial_spec, GoState, MoveResult, Player,
};
use crate::random::random_below;
use vstd::prelude::*;

verus! {

const CAPTURE_WEIGHT: i64 = 30;

const SAVE_WEIGHT: i64 = 25;

const ATARI_WEIGHT: i64 = 12;

const ATARI_SIZE_WEIGHT: i64 = 4;

const LIBERTY_WEIGHT: i64 = 2;

const ENEMY_CONTACT_WEIGHT: i64 = 3;

const FRIENDLY_CONTACT_WEIGHT: i64 = 1;

const HOSHI_BONUS: i64 = 2;

const SELF_ATARI_PENALTY: i64 = 45;

const EYE_FILL_PENALTY: i64 = 60;

const SURROUNDED_LATE_PENALTY: i64 = 5;

/// How many top-scored moves Easy may wander among.
const EASY_TOP: usize = 8;

/// Easy ignores scoring entirely and plays something legal one time in
/// this many.
const EASY_BLUNDER_ODDS: usize = 5;

/// Largest board the scoring arithmetic is sized for: every score then
/// stays far inside an `i64`.
pub const MAX_POINTS: u64 = 1_000_000_000_000_000;

/// One legal move plus everything scoring needs about it.
struct Candidate {
    idx: usize,
    /// Side that played this move.
    mover: Player,
    /// Position after playing here; legality already proven by simulation.
    after: GoState,
    /// Stones this move captures.
    captured: u32,
    /// True when the move lifts one of our groups out of atari.
    saved_atari: bool,
}

/// The state is small enough for the search: every counter stays in
/// range through two more moves.
pub open spec fn searchable(state: GoState) -> bool {
    &&& state.wf()
    &&& state.cells_spec().len() <= MAX_POINTS
    &&& state.captures_spec().0 + 2 * state.cells_spec().len() <= u32::MAX
    &&& state.captures_spec().1 + 2 * state.cells_spec().len() <= u32::MAX
}

/// `idx` is a move [`GoState::play`] accepts.
pub open spec fn playable(state: GoState, idx: int) -> bool {
    state.outcome(idx) == MoveResult::Played
}

/// Stones the side to move captures by playing `idx`.
pub open spec fn capture_gain(state: GoState, idx: int) -> int {
    trial_spec(state.cells_spec(), state.size_spec(), state.turn_spec(), idx).1
}

/// What every candidate satisfies: a legal move of the side to move, with
/// the stones it captures and whether it rescues a group in atari.
spec fn cand_ok(state: GoState, c: Candidate) -> bool {
    &&& playable(state, c.idx as int)
    &&& c.mover == state.turn_spec()
    &&& c.captured == capture_gain(state, c.idx as int)
    &&& c.saved_atari == rescues(state, c.after.cells_spec(), c.idx as int)
    &&& c.after.cells_spec() == after_cells(state, c.idx as int)
    &&& state.placed(c.idx as int, c.after)
    &&& c.after.wf()
    &&& c.after.size_spec() == state.size_spec()
    &&& c.after.cells_spec().len() == state.cells_spec().len()
    &&& c.after.captures_spec().0 <= state.captures_spec().0 + state.cells_spec().len()
    &&& c.after.captures_spec().1 <= state.captures_spec().1 + state.cells_spec().len()
    &&& c.captured <= state.cells_spec().len()
    &&& c.idx < state.cells_spec().len()
}

/// Picks an intersection for the side to move, or `None` to pass.
///
/// Candidates are found by simulation on copied states, so the returned
/// index is always one [`GoState::play`] accepts. Easy passes only when no
/// move is legal.
pub fn best_move(state: &GoState, difficulty: Difficulty) -> (r: Option<usize>)
    requires
        searchable(*state),
    ensures
        r matches Some(idx) ==> playable(*state, idx as int),
        (forall|idx: int| 0 <= idx < state.cells_spec().len() ==> !#[trigger] playable(*state, idx)) ==> r is None,
        difficulty == Difficulty::Easy && r is None ==> forall|idx: int|
            0 <= idx < state.cells_spec().len() ==> !#[trigger] playable(*state, idx),
        difficulty == Difficulty::Medium ==> r == medium_move(*state),
        difficulty == Difficulty::Hard && playable_points(*state).len() > 0 ==> exists|o: Seq<usize>, rep: Seq<int>|
            #![trigger hard_move(*state, o, rep)]
            {
                &&& ranking(point_values(*state), o)
                &&& rep.len() == o.len()
                &&& forall|p: int|
                    #![trigger rep[p]]
                    0 <= p < 3 && p < o.len() ==> reply_after(*state, playable_points(*state)[o[p] as int] as int, rep[p])
                &&& r == hard_move(*state, o, rep)
            },
{
    let cands = candidates(state);
    if cands.len() == 0 {
        return None;
    }
    proof {
        lemma_values_match(*state, cands@);
    }
    match difficulty {
        Difficulty::Easy => easy_pick(state, &cands),
        Difficulty::Medium => {
            let r = medium_pick(state, &cands);
            proof {
                let b = first_argmax(values(*state, cands@));
                assert(cands@[b].idx == playable_points(*state)[b]);
            }
            r
        },
        Difficulty::Hard => {
            let r = hard_pick(state, &cands);
            proof {
                let pts = playable_points(*state);
                let (o, rep) = choose|o: Seq<usize>, rep: Seq<int>|
                    #![trigger hard_choice(*state, cands@, o, rep)]
                    {
                        &&& ranking(values(*state, cands@), o)
                        &&& rep.len() == o.len()
                        &&& forall|p: int|
                            0 <= p < 3 && p < o.len() ==> best_reply(
                                #[trigger] cands@[o[p] as int].after,
                                rep[p],
                            )
                        &&& r == hard_choice(*state, cands@, o, rep)
                        &&& last_max(
                            adjusted_values(values(*state, cands@), o, rep),
                            last_argmax(adjusted_values(values(*state, cands@), o, rep)),
                        )
                    };
                assert forall|p: int|
                    #![trigger rep[p]]
                    0 <= p < 3 && p < o.len() implies reply_after(*state, playable_points(*state)[o[p] as int] as int, rep[p]) by {
                    let c = cands@[o[p] as int];
                    assert(ranking(values(*state, cands@), o));
                    assert(o[p] < cands@.len());
                    assert(cand_ok(*state, c));
                    assert(best_reply(cands@[o[p] as int].after, rep[p]));
                    assert(state.placed(pts[o[p] as int] as int, c.after));
                }
                let b = last_argmax(adjusted_values(point_values(*state), o, rep));
                assert(o[b] < cands@.len());
                assert(cands@[o[b] as int].idx == pts[o[b] as int]);
                assert(r == hard_move(*state, o, rep));
                assert(ranking(point_values(*state), o));
                assert(rep.len() == o.len());
                assert(forall|p: int|
                        #![trigger rep[p]]
                        0 <= p < 3 && p < o.len() ==> reply_after(*state, playable_points(*state)[o[p] as int] as int, rep[p]));
                assert({
                    &&& ranking(point_values(*state), o)
                    &&& rep.len() == o.len()
                    &&& forall|p: int|
                        #![trigger rep[p]]
                        0 <= p < 3 && p < o.len() ==> reply_after(*state, playable_points(*state)[o[p] as int] as int, rep[p])
                    &&& r == hard_move(*state, o, rep)
                });
            }
            r
        },
    }
}

fn easy_pick(state: &GoState, cands: &Vec<Candidate>) -> (r: Option<usize>)
    requires
        searchable(*state),
        cands@.len() > 0,
        forall|k: int| 0 <= k < cands@.len() ==> cand_ok(*state, #[trigger] cands@[k]),
    ensures
        r matches Some(idx) ==> playable(*state, idx as int),
        r is Some,
{
    if random_below(EASY_BLUNDER_ODDS) == 0 {
        let pick = random_below(cands.len());
        return Some(cands[pick].idx);
    }
    let scores = score_all(state, cands);
    let ranked = rank_desc(&scores);
    let top = if ranked.len() < EASY_TOP {
        ranked.len()
    } else {
        EASY_TOP
    };
    let pick = random_below(top);
    Some(cands[ranked[pick]].idx)
}

/// The heuristic value of every candidate, in order.
/// The heuristic value of every playable point, in increasing order.
pub open spec fn point_values(state: GoState) -> Seq<int> {
    Seq::new(playable_points(state).len(), |k: int| point_value(state, playable_points(state)[k] as int))
}

/// Medium's move: the first playable point of best value, or a pass when
/// no point is legal, or none captures or rescues and the best value is not
/// positive.
pub open spec fn medium_move(state: GoState) -> Option<usize> {
    let pts = playable_points(state);
    let vals = point_values(state);
    let b = first_argmax(vals);
    if pts.len() == 0 {
        None
    } else if (forall|k: int| 0 <= k < pts.len() ==> !#[trigger] tactical_point(state, pts[k] as int))
        && vals[b] <= 0 {
        None
    } else {
        Some(pts[b])
    }
}

/// After the side to move plays `idx`, the opponent's best capture is `r`.
pub open spec fn reply_after(state: GoState, idx: int, r: int) -> bool {
    exists|g: GoState| #[trigger] state.placed(idx, g) && best_reply(g, r)
}

/// Hard's move for ranking `o` of the point values and best recaptures
/// `rep` of the three best ranked: the last point of best adjusted value,
/// or a pass when that value is not positive.
pub open spec fn hard_move(state: GoState, o: Seq<usize>, rep: Seq<int>) -> Option<usize> {
    let adj = adjusted_values(point_values(state), o, rep);
    let b = last_argmax(adj);
    if adj[b] <= 0 {
        None
    } else {
        Some(playable_points(state)[o[b] as int])
    }
}

/// Candidates that list the playable points in order carry their values.
proof fn lemma_values_match(state: GoState, cands: Seq<Candidate>)
    requires
        forall|k: int| 0 <= k < cands.len() ==> cand_ok(state, #[trigger] cands[k]),
        cands.len() == playable_points(state).len(),
        forall|k: int| 0 <= k < cands.len() ==> (#[trigger] cands[k]).idx == playable_points(state)[k],
    ensures
        values(state, cands) == point_values(state),
        no_tactic(cands) == (forall|k: int|
            0 <= k < playable_points(state).len() ==> !#[trigger] tactical_point(
                state,
                playable_points(state)[k] as int,
            )),
{
    let pts = playable_points(state);
    assert forall|k: int| 0 <= k < cands.len() implies values(state, cands)[k] == point_values(state)[k] by {
        assert(cand_ok(state, cands[k]));
        assert(cands[k].idx == pts[k]);
    }
    assert(values(state, cands) =~= point_values(state));
    assert forall|k: int| 0 <= k < cands.len() implies tactical(#[trigger] cands[k]) == tactical_point(
        state,
        pts[k] as int,
    ) by {
        assert(cand_ok(state, cands[k]));
        assert(cands[k].idx == pts[k]);
    }
    if no_tactic(cands) {
        assert forall|k: int| 0 <= k < pts.len() implies !#[trigger] tactical_point(state, pts[k] as int) by {
            assert(!tactical(cands[k]));
        }
    } else {
        let k = choose|k: int| 0 <= k < cands.len() && tactical(#[trigger] cands[k]);
        assert(tactical_point(state, pts[k] as int));
    }
}

spec fn values(state: GoState, cands: Seq<Candidate>) -> Seq<int> {
    Seq::new(cands.len(), |k: int| candidate_value(state, cands[k]))
}

/// No candidate captures or rescues.
spec fn no_tactic(cands: Seq<Candidate>) -> bool {
    forall|k: int| 0 <= k < cands.len() ==> !tactical(#[trigger] cands[k])
}

/// Medium's choice: the first best-valued candidate, or a pass when no
/// candidate is tactical and the best value is not positive.
spec fn medium_choice(state: GoState, cands: Seq<Candidate>) -> Option<usize> {
    let vals = values(state, cands);
    let b = first_argmax(vals);
    if no_tactic(cands) && vals[b] <= 0 {
        None
    } else {
        Some(cands[b].idx)
    }
}

fn medium_pick(state: &GoState, cands: &Vec<Candidate>) -> (r: Option<usize>)
    requires
        searchable(*state),
        cands@.len() > 0,
        forall|k: int| 0 <= k < cands@.len() ==> cand_ok(*state, #[trigger] cands@[k]),
    ensures
        r == medium_choice(*state, cands@),
        first_max(values(*state, cands@), first_argmax(values(*state, cands@))),
        r matches Some(idx) ==> playable(*state, idx as int),
{
    let scores = score_all(state, cands);
    let ghost vals = values(*state, cands@);
    let mut best: usize = 0;
    let mut k: usize = 1;
    while k < scores.len()
        invariant
            scores@.len() == cands@.len(),
            vals == values(*state, cands@),
            forall|q: int| 0 <= q < scores@.len() ==> #[trigger] scores@[q] == vals[q],
            1 <= k <= scores@.len(),
            best < k,
            forall|j: int| 0 <= j < k ==> vals[j] <= vals[best as int],
            forall|j: int| 0 <= j < best ==> vals[j] < vals[best as int],
        decreases scores@.len() - k,
    {
        assert(scores@[k as int] == vals[k as int] && scores@[best as int] == vals[best as int]);
        if scores[k] > scores[best] {
            best = k;
        }
        k += 1;
    }
    proof {
        assert(first_max(vals, best as int));
        lemma_first_max_unique(vals, best as int);
        assert(scores@[best as int] == vals[best as int]);
    }
    if should_pass(state, scores[best], cands) {
        return None;
    }
    Some(cands[best].idx)
}

/// `r` is the most stones the side to move in `g` can capture with one
/// move, or 0 when it can capture nothing.
pub open spec fn best_reply(g: GoState, r: int) -> bool {
    &&& forall|i: int|
        0 <= i < g.cells_spec().len() && #[trigger] playable(g, i) ==> capture_gain(g, i) <= r
    &&& r == 0 || exists|i: int|
        0 <= i < g.cells_spec().len() && #[trigger] playable(g, i) && capture_gain(g, i) == r
}

/// Hard's value of each ranked candidate: its heuristic value, less 30 per
/// stone of the best recapture `rep` for the three best ranked.
pub open spec fn adjusted_values(vals: Seq<int>, o: Seq<usize>, rep: Seq<int>) -> Seq<int> {
    Seq::new(
        o.len(),
        |p: int|
            vals[o[p] as int] - if p < 3 {
                30 * rep[p]
            } else {
                0
            },
    )
}

/// Hard's choice for ranking `o` and recaptures `rep`: the last candidate of
/// best adjusted value, or a pass when that value is not positive.
spec fn hard_choice(state: GoState, cands: Seq<Candidate>, o: Seq<usize>, rep: Seq<int>) -> Option<
    usize,
> {
    let adj = adjusted_values(values(state, cands), o, rep);
    let b = last_argmax(adj);
    if adj[b] <= 0 {
        None
    } else {
        Some(cands[o[b] as int].idx)
    }
}

fn hard_pick(state: &GoState, cands: &Vec<Candidate>) -> (r: Option<usize>)
    requires
        searchable(*state),
        cands@.len() > 0,
        forall|k: int| 0 <= k < cands@.len() ==> cand_ok(*state, #[trigger] cands@[k]),
    ensures
        exists|o: Seq<usize>, rep: Seq<int>|
            #![trigger hard_choice(*state, cands@, o, rep)]
            {
                &&& ranking(values(*state, cands@), o)
                &&& rep.len() == o.len()
                &&& forall|p: int|
                    0 <= p < 3 && p < o.len() ==> best_reply(
                        #[trigger] cands@[o[p] as int].after,
                        rep[p],
                    )
                &&& r == hard_choice(*state, cands@, o, rep)
                &&& last_max(
                    adjusted_values(values(*state, cands@), o, rep),
                    last_argmax(adjusted_values(values(*state, cands@), o, rep)),
                )
            },
        r matches Some(idx) ==> playable(*state, idx as int),
{
    let scores = score_all(state, cands);
    let ghost vals = values(*state, cands@);
    proof {
        assert(int_view(scores@) =~= vals);
    }
    let order = rank_desc(&scores);
    let mut adjusted: Vec<i64> = Vec::new();
    let ghost mut reps: Seq<int> = Seq::empty();
    let mut p: usize = 0;
    while p < order.len()
        invariant
            0 <= p <= order@.len(),
            order@.len() == scores@.len(),
            scores@.len() == cands@.len(),
            vals == values(*state, cands@),
            forall|q: int| 0 <= q < scores@.len() ==> #[trigger] scores@[q] == vals[q],
            forall|q: int| 0 <= q < order@.len() ==> #[trigger] order@[q] < scores@.len(),
            forall|q: int| 0 <= q < scores@.len() ==> -1_000_000_000_000_000_000 <= #[trigger] scores@[q] <= 1_000_000_000_000_000_000,
            adjusted@.len() == p,
            reps.len() == p,
            forall|q: int| 0 <= q < p ==> -2_000_000_000_000_000_000 <= #[trigger] adjusted@[q] <= 1_000_000_000_000_000_000,
            forall|q: int|
                0 <= q < p ==> #[trigger] adjusted@[q] == vals[order@[q] as int] - if q < 3 {
                    30 * reps[q]
                } else {
                    0
                },
            forall|q: int| 0 <= q < p && q < 3 ==> best_reply(#[trigger] cands@[order@[q] as int].after, reps[q]),
            forall|k: int| 0 <= k < cands@.len() ==> cand_ok(*state, #[trigger] cands@[k]),
            searchable(*state),
        decreases order@.len() - p,
    {
        let base = scores[order[p]];
        // One-ply refinement: discount moves that hand the opponent a big
        // recapture, valued like a capture so ko-ish giveaways lose appeal.
        let v = if p < 3 {
            let reply = best_reply_capture(&cands[order[p]].after, Ghost(*state));
            proof {
                reps = reps.push(reply as int);
                assert(best_reply(cands@[order@[p as int] as int].after, reps[p as int]));
            }
            base - reply as i64 * CAPTURE_WEIGHT
        } else {
            proof {
                reps = reps.push(0);
            }
            base
        };
        adjusted.push(v);
        p += 1;
    }
    let ghost adj = adjusted_values(vals, order@, reps);
    proof {
        assert(int_view(adjusted@) =~= adj);
    }
    // The last of the best scores wins.
    let mut best: usize = 0;
    let mut k: usize = 1;
    while k < adjusted.len()
        invariant
            adjusted@.len() == order@.len(),
            adj == int_view(adjusted@),
            1 <= k <= adjusted@.len(),
            best < k,
            forall|j: int| 0 <= j < k ==> adj[j] <= adj[best as int],
            forall|j: int| best < j < k ==> adj[j] < adj[best as int],
        decreases adjusted@.len() - k,
    {
        if adjusted[k] >= adjusted[best] {
            best = k;
        }
        k += 1;
    }
    proof {
        assert(last_max(adj, best as int));
        lemma_last_max_unique(adj, best as int);
        assert(hard_choice(*state, cands@, order@, reps) == if adj[best as int] <= 0 {
            None
        } else {
            Some(cands@[order@[best as int] as int].idx)
        });
    }
    let empty: Vec<Candidate> = Vec::new();
    if should_pass(state, adjusted[best], &empty) {
        return None;
    }
    Some(cands[order[best]].idx)
}

/// A capture or a rescue: a tactical shot that forbids passing.
spec fn tactical(c: Candidate) -> bool {
    c.captured > 0 || c.saved_atari
}

/// Pass when nothing is worth doing: no candidate captures or rescues, and
/// the best score is not positive. Tactical shots always override.
fn should_pass(state: &GoState, best_score: i64, cands: &Vec<Candidate>) -> (r: bool)
    ensures
        r == ((forall|k: int| 0 <= k < cands@.len() ==> !tactical(#[trigger] cands@[k])) && best_score
            <= 0),
{
    let mut k: usize = 0;
    while k < cands.len()
        invariant
            0 <= k <= cands@.len(),
            forall|j: int| 0 <= j < k ==> !tactical(#[trigger] cands@[j]),
        decreases cands@.len() - k,
    {
        if cands[k].captured > 0 || cands[k].saved_atari {
            assert(tactical(cands@[k as int]));
            return false;
        }
        k += 1;
    }
    if state.pass_count() >= 1 && best_score <= 0 {
        // Opponent passed last and we have no plan either — settle the game.
        return true;
    }
    best_score <= 0
}


/// The heuristic score of every candidate.
fn score_all(state: &GoState, cands: &Vec<Candidate>) -> (out: Vec<i64>)
    requires
        searchable(*state),
        forall|k: int| 0 <= k < cands@.len() ==> cand_ok(*state, #[trigger] cands@[k]),
    ensures
        out@.len() == cands@.len(),
        forall|q: int| 0 <= q < out@.len() ==> #[trigger] out@[q] == candidate_value(*state, cands@[q]),
        forall|q: int| 0 <= q < out@.len() ==> -1_000_000_000_000_000_000 <= #[trigger] out@[q] <= 1_000_000_000_000_000_000,
{
    let mut out: Vec<i64> = Vec::new();
    let mut k: usize = 0;
    while k < cands.len()
        invariant
            0 <= k <= cands@.len(),
            out@.len() == k,
            forall|q: int| 0 <= q < out@.len() ==> #[trigger] out@[q] == candidate_value(*state, cands@[q]),
            forall|q: int| 0 <= q < out@.len() ==> -1_000_000_000_000_000_000 <= #[trigger] out@[q] <= 1_000_000_000_000_000_000,
            forall|j: int| 0 <= j < cands@.len() ==> cand_ok(*state, #[trigger] cands@[j]),
            searchable(*state),
        decreases cands@.len() - k,
    {
        out.push(score_candidate(state, &cands[k]));
        k += 1;
    }
    out
}

/// Some candidate of `cands` plays `idx`.
spec fn listed(cands: Seq<Candidate>, idx: int) -> bool {
    exists|k: int| 0 <= k < cands.len() && #[trigger] cands[k].idx == idx
}

/// The points below `n` that [`GoState::play`] accepts, in increasing order.
pub open spec fn playable_upto(state: GoState, n: int) -> Seq<usize>
    decreases n,
{
    if n <= 0 {
        Seq::empty()
    } else {
        playable_upto(state, n - 1) + if playable(state, n - 1) {
            seq![(n - 1) as usize]
        } else {
            Seq::empty()
        }
    }
}

/// Every point [`GoState::play`] accepts, in increasing order.
pub open spec fn playable_points(state: GoState) -> Seq<usize> {
    playable_upto(state, state.cells_spec().len() as int)
}

/// Every empty point where [`GoState::play`] would succeed, via copies.
fn candidates(state: &GoState) -> (out: Vec<Candidate>)
    requires
        state.wf(),
        state.captures_spec().0 + state.cells_spec().len() <= u32::MAX,
        state.captures_spec().1 + state.cells_spec().len() <= u32::MAX,
    ensures
        forall|k: int| 0 <= k < out@.len() ==> cand_ok(*state, #[trigger] out@[k]),
        forall|idx: int|
            0 <= idx < state.cells_spec().len() && #[trigger] playable(*state, idx) ==> listed(out@, idx),
        out@.len() == 0 ==> forall|idx: int| 0 <= idx < state.cells_spec().len() ==> !#[trigger] playable(*state, idx),
        out@.len() == playable_points(*state).len(),
        forall|k: int| 0 <= k < out@.len() ==> (#[trigger] out@[k]).idx == playable_points(*state)[k],
{
    let size = state.size();
    let len = state.board().len();
    let me = state.to_move();
    let (caps_black, caps_white) = state.captures();
    let mut out: Vec<Candidate> = Vec::new();
    let mut idx: usize = 0;
    while idx < len
        invariant
            len == state.cells_spec().len(),
            size == state.size_spec(),
            state.wf(),
            me == state.turn_spec(),
            (caps_black, caps_white) == state.captures_spec(),
            state.captures_spec().0 + state.cells_spec().len() <= u32::MAX,
            state.captures_spec().1 + state.cells_spec().len() <= u32::MAX,
            0 <= idx <= len,
            forall|k: int| 0 <= k < out@.len() ==> cand_ok(*state, #[trigger] out@[k]),
            forall|i: int| 0 <= i < idx && #[trigger] playable(*state, i) ==> listed(out@, i),
            out@.len() == 0 ==> forall|i: int| 0 <= i < idx ==> !#[trigger] playable(*state, i),
            out@.len() == playable_upto(*state, idx as int).len(),
            forall|k: int| 0 <= k < out@.len() ==> (#[trigger] out@[k]).idx == playable_upto(*state, idx as int)[k],
        decreases len - idx,
    {
        if state.board()[idx] != Player::Empty {
            assert(!playable(*state, idx as int));
            assert(playable_upto(*state, idx + 1) =~= playable_upto(*state, idx as int));
            idx += 1;
            continue;
        }
        let mut trial = state.copy();
        let res = trial.play(idx);
        match res {
            MoveResult::Played => {},
            _ => {
                assert(!playable(*state, idx as int));
                assert(playable_upto(*state, idx + 1) =~= playable_upto(*state, idx as int));
                idx += 1;
                continue;
            },
        }
        let (after_black, after_white) = trial.captures();
        let captured = match me {
            Player::Black => after_black - caps_black,
            _ => after_white - caps_white,
        };
        let saved_atari = rescues_atari_group(state, &trial, idx);
        let ghost prev = out@;
        out.push(Candidate { idx, mover: me, after: trial, captured, saved_atari });
        proof {
            assert(playable(*state, idx as int));
            assert(playable_upto(*state, idx + 1) =~= playable_upto(*state, idx as int).push(idx));
            assert forall|i: int| 0 <= i < idx + 1 && #[trigger] playable(*state, i) implies listed(
                out@,
                i,
            ) by {
                if i < idx {
                    let k = choose|k: int| 0 <= k < prev.len() && #[trigger] prev[k].idx == i;
                    assert(out@[k].idx == i);
                } else {
                    assert(out@[prev.len() as int].idx == i);
                }
            }
        }
        idx += 1;
    }
    out
}

/// The group through `n` has exactly one liberty.
pub open spec fn in_atari(cells: Seq<Player>, size: int, n: int) -> bool {
    liberties_of(cells, size, group_of(cells, size, n)).len() == 1
}

/// The `k`-th neighbour of `idx` held a friendly group in atari before the
/// move, and the group through `idx` has at least two liberties after it.
pub open spec fn rescue_at(before: GoState, ca: Seq<Player>, idx: int, k: int) -> bool {
    let size = before.size_spec();
    let cb = before.cells_spec();
    let n = nbrs(size, cb.len() as int, idx)[k];
    &&& cb[n] == before.turn_spec()
    &&& in_atari(cb, size, n)
    &&& liberties_of(ca, size, group_of(ca, size, idx)).len() >= 2
}

/// Playing `idx` lifted a friendly group out of atari.
pub open spec fn rescues(before: GoState, ca: Seq<Player>, idx: int) -> bool {
    exists|k: int|
        0 <= k < nbrs(before.size_spec(), before.cells_spec().len() as int, idx).len()
            && #[trigger] rescue_at(before, ca, idx, k)
}

/// True when `idx` connects to a friendly group that had exactly one
/// liberty before the move and clearly more afterwards.
fn rescues_atari_group(before: &GoState, after: &GoState, idx: usize) -> (r: bool)
    requires
        before.wf(),
        after.wf(),
        after.size_spec() == before.size_spec(),
        idx < before.cells_spec().len(),
    ensures
        r == rescues(*before, after.cells_spec(), idx as int),
{
    let size = before.size();
    let len = before.board().len();
    let me = before.to_move();
    proof {
        assert(size >= 1) by (nonlinear_arith)
            requires
                idx < len,
                len == size * size,
        ;
    }
    let ns = neighbors(size, len, idx);
    let mut k: usize = 0;
    while k < ns.len()
        invariant
            len == before.cells_spec().len(),
            len == after.cells_spec().len(),
            size == before.size_spec(),
            size == after.size_spec(),
            me == before.turn_spec(),
            len == size * size,
            size >= 1,
            idx < len,
            0 <= k <= ns@.len(),
            ns@.len() == nbrs(size as int, len as int, idx as int).len(),
            forall|m: int| 0 <= m < ns@.len() ==> #[trigger] ns@[m] == nbrs(size as int, len as int, idx as int)[m],
            forall|m: int| 0 <= m < ns@.len() ==> #[trigger] ns@[m] < len,
            forall|m: int| 0 <= m < k ==> !#[trigger] rescue_at(*before, after.cells_spec(), idx as int, m),
        decreases ns@.len() - k,
    {
        let n = ns[k];
        if before.board()[n] == me {
            let (_, libs_before) = group_and_liberties(before.board(), size, n);
            if libs_before == 1 {
                let (_, libs_after) = group_and_liberties(after.board(), size, idx);
                if libs_after >= 2 {
                    assert(rescue_at(*before, after.cells_spec(), idx as int, k as int));
                    return true;
                }
                assert(!rescue_at(*before, after.cells_spec(), idx as int, k as int));
            }
        }
        k += 1;
    }
    false
}

/// Heuristic value of a candidate from the mover's side: captures, a
/// rescue, enemy groups left in atari, own liberties, contact and shape,
/// less the penalties for self-atari, filling an own eye, and a lone stone
/// among enemies late in the game.
pub open spec fn value_at(
    before: GoState,
    idx: int,
    mover: Player,
    ca: Seq<Player>,
    captured: int,
    saved: bool,
) -> int {
    let size = before.size_spec();
    let cb = before.cells_spec();
    let opp = opponent_of(mover);
    let ns = nbrs(size, cb.len() as int, idx);
    let own = group_of(ca, size, idx);
    let libs = liberties_of(ca, size, own).len() as int;
    captured * 30 + (if saved {
        25int
    } else {
        0int
    }) + atari_sum(ca, size, ns, opp, ns.len() as int) + libs * 2 + contact_sum(
        cb,
        ns,
        mover,
        opp,
        ns.len() as int,
    ) + shape_value(size, idx) - (if libs == 1 {
        45int
    } else {
        0int
    }) - (if own_eye(cb, size, idx, mover) {
        60int
    } else {
        0int
    }) - (if late_game(cb) && own.len() == 1 && enemy_count(cb, ns, opp, ns.len() as int) >= 3 {
        5int
    } else {
        0int
    })
}

/// The board after the side to move plays `idx`.
pub open spec fn after_cells(state: GoState, idx: int) -> Seq<Player> {
    trial_spec(state.cells_spec(), state.size_spec(), state.turn_spec(), idx).0
}

/// Heuristic value of playing `idx` for the side to move.
pub open spec fn point_value(state: GoState, idx: int) -> int {
    let ca = after_cells(state, idx);
    value_at(state, idx, state.turn_spec(), ca, capture_gain(state, idx), rescues(state, ca, idx))
}

/// A capture or a rescue at `idx`: a tactical shot that forbids passing.
pub open spec fn tactical_point(state: GoState, idx: int) -> bool {
    capture_gain(state, idx) > 0 || rescues(state, after_cells(state, idx), idx)
}

spec fn candidate_value(before: GoState, c: Candidate) -> int {
    value_at(before, c.idx as int, c.mover, c.after.cells_spec(), c.captured as int, c.saved_atari)
}

/// Heuristic value of a candidate from the mover's perspective.
fn score_candidate(before: &GoState, cand: &Candidate) -> (s: i64)
    requires
        searchable(*before),
        cand_ok(*before, *cand),
    ensures
        s == candidate_value(*before, *cand),
        -1_000_000_000_000_000_000 <= s <= 1_000_000_000_000_000_000,
{
    let size = before.size();
    let len = before.board().len();
    let cells_before = before.board();
    let cells_after = cand.after.board();
    let me = cand.mover;
    let opp = me.opponent();
    proof {
        assert(size >= 1) by (nonlinear_arith)
            requires
                cand.idx < len,
                len == size * size,
        ;
    }
    let mut s: i64 = cand.captured as i64 * CAPTURE_WEIGHT;
    if cand.saved_atari {
        s = s + SAVE_WEIGHT;
    }
    // Enemy groups pushed into atari (each group counted once).
    s = s + atari_bonus(cells_after, size, cand.idx, opp);
    // Breathing room of our resulting group.
    let (own_group, own_libs) = group_and_liberties(cells_after, size, cand.idx);
    proof {
        lemma_points_len(own_group@);
    }
    s = s + own_libs as i64 * LIBERTY_WEIGHT;
    // Contact play looks natural.
    let (contact, enemy_neighbours) = contact_bonus(cells_before, size, cand.idx, me, opp);
    s = s + contact;
    // Opening shape: star points and a gentle pull toward the centre.
    s = s + shape_bonus(size, cand.idx);
    // Penalties.
    if own_libs == 1 {
        s = s - SELF_ATARI_PENALTY;
    }
    if fills_own_eye(cells_before, size, cand.idx, me) {
        s = s - EYE_FILL_PENALTY;
    }
    if is_late(before) && own_group.len() == 1 && enemy_neighbours >= 3 {
        s = s - SURROUNDED_LATE_PENALTY;
    }
    s
}

/// No point is listed twice among the neighbours of `idx`.
proof fn lemma_nbrs_distinct(size: int, len: int, idx: int)
    requires
        size >= 1,
        0 <= idx < len,
    ensures
        nbrs(size, len, idx).no_duplicates(),
{
    if size == 1 {
        assert(idx % size == 0);
    }
    let ns = nbrs(size, len, idx);
    assert forall|a: int, b: int| 0 <= a < ns.len() && 0 <= b < ns.len() && a != b implies ns[a]
        != ns[b] by {
        if size == 1 {
            assert(idx % size == 0);
        }
    }
}

/// Bonus for the enemy group through neighbour `n` when the move leaves it
/// in atari: 12, and 4 per stone.
pub open spec fn atari_value(cells: Seq<Player>, size: int, n: int, opp: Player) -> int {
    let g = group_of(cells, size, n);
    if cells[n] == opp && liberties_of(cells, size, g).len() == 1 {
        12 + 4 * (g.len() as int)
    } else {
        0
    }
}

/// Atari bonus over the first `k` points of `ns`.
pub open spec fn atari_sum(cells: Seq<Player>, size: int, ns: Seq<int>, opp: Player, k: int) -> int
    decreases k,
{
    if k <= 0 {
        0
    } else {
        atari_sum(cells, size, ns, opp, k - 1) + atari_value(cells, size, ns[k - 1], opp)
    }
}

/// Bonus for enemy groups next to `idx` left in atari, one per neighbouring
/// enemy stone.
fn atari_bonus(cells: &[Player], size: usize, idx: usize, opp: Player) -> (s: i64)
    requires
        idx < cells@.len(),
        cells@.len() == size * size,
        cells@.len() <= MAX_POINTS,
        size >= 1,
    ensures
        s == atari_sum(cells@, size as int, nbrs(size as int, cells@.len() as int, idx as int), opp,
            nbrs(size as int, cells@.len() as int, idx as int).len() as int),
        0 <= s <= 4 * 4_000_000_000_000_012,
{
    let len = cells.len();
    let ns = neighbors(size, len, idx);
    let ghost spec_ns = nbrs(size as int, len as int, idx as int);
    proof {
        lemma_nbrs_distinct(size as int, len as int, idx as int);
    }
    let mut ataried_roots: Vec<usize> = Vec::new();
    let mut s: i64 = 0;
    let mut k: usize = 0;
    while k < ns.len()
        invariant
            len == cells@.len(),
            len == size * size,
            len <= MAX_POINTS,
            size >= 1,
            spec_ns == nbrs(size as int, len as int, idx as int),
            spec_ns.no_duplicates(),
            ns@.len() == spec_ns.len(),
            ns@.len() <= 4,
            0 <= k <= ns@.len(),
            forall|m: int| 0 <= m < ns@.len() ==> #[trigger] ns@[m] == spec_ns[m],
            forall|m: int| 0 <= m < ns@.len() ==> #[trigger] ns@[m] < len,
            forall|j: int|
                #![trigger ataried_roots@[j]]
                0 <= j < ataried_roots@.len() ==> exists|m: int|
                    0 <= m < k && #[trigger] spec_ns[m] == ataried_roots@[j] as int,
            0 <= s <= k * 4_000_000_000_000_012,
            s == atari_sum(cells@, size as int, spec_ns, opp, k as int),
        decreases ns@.len() - k,
    {
        let n = ns[k];
        assert(ns@[k as int] == spec_ns[k as int]);
        if cells[n] == opp {
            let (group, libs) = group_and_liberties(cells, size, n);
            proof {
                lemma_points_len(group@);
            }
            let mut seen = false;
            let mut j: usize = 0;
            while j < ataried_roots.len()
                invariant
                    group@.len() >= 1,
                    group@[0] == n,
                    n == spec_ns[k as int],
                    k < spec_ns.len(),
                    spec_ns.no_duplicates(),
                    !seen,
                    forall|j2: int|
                        #![trigger ataried_roots@[j2]]
                        0 <= j2 < ataried_roots@.len() ==> exists|m: int|
                            0 <= m < k && #[trigger] spec_ns[m] == ataried_roots@[j2] as int,
                decreases ataried_roots@.len() - j,
            {
                if ataried_roots[j] == group[0] {
                    let ghost m = choose|m: int|
                        0 <= m < k && #[trigger] spec_ns[m] == ataried_roots@[j as int] as int;
                    assert(spec_ns[m] == spec_ns[k as int]);
                    seen = true;
                }
                j += 1;
            }
            if libs == 1 && !seen {
                s = s + ATARI_WEIGHT + group.len() as i64 * ATARI_SIZE_WEIGHT;
                ataried_roots.push(group[0]);
                proof {
                    assert forall|j2: int|
                        #![trigger ataried_roots@[j2]]
                        0 <= j2 < ataried_roots@.len() implies exists|m: int|
                            0 <= m < k + 1 && #[trigger] spec_ns[m] == ataried_roots@[j2] as int by {
                        if j2 < ataried_roots@.len() - 1 {
                            let m = choose|m: int|
                                0 <= m < k && #[trigger] spec_ns[m] == ataried_roots@[j2] as int;
                            assert(0 <= m < k + 1 && spec_ns[m] == ataried_roots@[j2] as int);
                        } else {
                            assert(spec_ns[k as int] == ataried_roots@[j2] as int);
                        }
                    }
                }
            }
        }
        k += 1;
    }
    s
}

/// Contact weight of a neighbouring point: 3 for an enemy stone, 1 for a
/// friendly one.
pub open spec fn contact_weight(p: Player, me: Player, opp: Player) -> int {
    if p == opp {
        3
    } else if p == me {
        1
    } else {
        0
    }
}

/// Contact weight of the first `k` points of `ns`.
pub open spec fn contact_sum(cells: Seq<Player>, ns: Seq<int>, me: Player, opp: Player, k: int) -> int
    decreases k,
{
    if k <= 0 {
        0
    } else {
        contact_sum(cells, ns, me, opp, k - 1) + contact_weight(cells[ns[k - 1]], me, opp)
    }
}

/// Enemy stones among the first `k` points of `ns`.
pub open spec fn enemy_count(cells: Seq<Player>, ns: Seq<int>, opp: Player, k: int) -> int
    decreases k,
{
    if k <= 0 {
        0
    } else {
        enemy_count(cells, ns, opp, k - 1) + if cells[ns[k - 1]] == opp {
            1int
        } else {
            0int
        }
    }
}

/// Bonus for touching stones (enemy contact weighs more), with the number
/// of enemy neighbours.
fn contact_bonus(cells: &[Player], size: usize, idx: usize, me: Player, opp: Player) -> (r: (i64, usize))
    requires
        idx < cells@.len(),
        size >= 1,
    ensures
        r.0 == contact_sum(cells@, nbrs(size as int, cells@.len() as int, idx as int), me, opp,
            nbrs(size as int, cells@.len() as int, idx as int).len() as int),
        r.1 == enemy_count(cells@, nbrs(size as int, cells@.len() as int, idx as int), opp,
            nbrs(size as int, cells@.len() as int, idx as int).len() as int),
        0 <= r.0 <= 12,
        r.1 <= 4,
{
    let len = cells.len();
    let ns = neighbors(size, len, idx);
    let ghost spec_ns = nbrs(size as int, len as int, idx as int);
    let mut s: i64 = 0;
    let mut enemy_neighbours: usize = 0;
    let mut k: usize = 0;
    while k < ns.len()
        invariant
            len == cells@.len(),
            spec_ns == nbrs(size as int, len as int, idx as int),
            ns@.len() == spec_ns.len(),
            ns@.len() <= 4,
            0 <= k <= ns@.len(),
            forall|m: int| 0 <= m < ns@.len() ==> #[trigger] ns@[m] == spec_ns[m],
            forall|m: int| 0 <= m < ns@.len() ==> #[trigger] ns@[m] < len,
            enemy_neighbours <= k,
            0 <= s <= 3 * k,
            s == contact_sum(cells@, spec_ns, me, opp, k as int),
            enemy_neighbours == enemy_count(cells@, spec_ns, opp, k as int),
        decreases ns@.len() - k,
    {
        let p = cells[ns[k]];
        assert(ns@[k as int] == spec_ns[k as int]);
        if p == opp {
            enemy_neighbours += 1;
            s = s + ENEMY_CONTACT_WEIGHT;
        } else if p == me {
            s = s + FRIENDLY_CONTACT_WEIGHT;
        }
        k += 1;
    }
    (s, enemy_neighbours)
}

/// Row `r`, column `c` is a star point: the nine 9x9 star points, or the
/// centre of any odd board.
pub open spec fn star_point(size: int, r: int, c: int) -> bool {
    ||| size == 9 && ((r == 2 && c == 2) || (r == 2 && c == 6) || (r == 6 && c == 2) || (r == 6
        && c == 6) || (r == 4 && c == 4))
    ||| size % 2 == 1 && r == (size - 1) / 2 && c == (size - 1) / 2
}

pub open spec fn abs_diff(a: int, b: int) -> int {
    if a > b {
        a - b
    } else {
        b - a
    }
}

/// Shape value of `idx`: 2 on a star point, less its row or column
/// distance from the centre, whichever is larger.
pub open spec fn shape_value(size: int, idx: int) -> int {
    let mid = (size - 1) / 2;
    let r = idx / size;
    let c = idx % size;
    let dist = if abs_diff(r, mid) > abs_diff(c, mid) {
        abs_diff(r, mid)
    } else {
        abs_diff(c, mid)
    };
    (if star_point(size, r, c) {
        2int
    } else {
        0int
    }) - dist
}

/// Star points earn a bonus; every row or column away from the centre
/// costs one.
fn shape_bonus(size: usize, idx: usize) -> (s: i64)
    requires
        size >= 1,
        idx < size * size,
        size * size <= MAX_POINTS,
    ensures
        s == shape_value(size as int, idx as int),
        -1_000_000_000_000_000 <= s <= 2,
{
    let mid = (size - 1) / 2;
    let r = idx / size;
    let c = idx % size;
    proof {
        assert(r < size) by (nonlinear_arith)
            requires
                r == idx / size,
                idx < size * size,
                size >= 1,
        ;
        assert(c < size) by (nonlinear_arith)
            requires
                c == idx % size,
                size >= 1,
        ;
        assert(size <= size * size) by (nonlinear_arith)
            requires
                size >= 1,
        ;
    }
    let hoshi9 = size == 9 && ((r == 2 && c == 2) || (r == 2 && c == 6) || (r == 6 && c == 2) || (r
        == 6 && c == 6) || (r == 4 && c == 4));
    let on_hoshi = hoshi9 || (size % 2 == 1 && r == mid && c == mid);
    let mut s: i64 = 0;
    if on_hoshi {
        s = s + HOSHI_BONUS;
    }
    let dr = if r > mid {
        r - mid
    } else {
        mid - r
    };
    let dc = if c > mid {
        c - mid
    } else {
        mid - c
    };
    let centre_dist = if dr > dc {
        dr
    } else {
        dc
    };
    s - centre_dist as i64
}

/// The diagonal point at row `rr`, column `cc` is off the board or holds
/// a stone of `me`.
pub open spec fn diagonal_own(cells: Seq<Player>, size: int, rr: int, cc: int, me: Player) -> bool {
    0 <= rr < size && 0 <= cc < size ==> cells[rr * size + cc] == me
}

/// `idx` is an eye of `me`: all four orthogonal neighbours exist and hold
/// `me`'s stones, and so does every diagonal on the board.
pub open spec fn own_eye(cells: Seq<Player>, size: int, idx: int, me: Player) -> bool {
    let ns = nbrs(size, cells.len() as int, idx);
    let r = idx / size;
    let c = idx % size;
    &&& ns.len() >= 4
    &&& forall|k: int| 0 <= k < ns.len() ==> cells[#[trigger] ns[k]] == me
    &&& diagonal_own(cells, size, r - 1, c - 1, me)
    &&& diagonal_own(cells, size, r - 1, c + 1, me)
    &&& diagonal_own(cells, size, r + 1, c - 1, me)
    &&& diagonal_own(cells, size, r + 1, c + 1, me)
}

/// All four orthogonal neighbours exist, belong to `me`, and every existing
/// diagonal belongs to `me` too — filling that would destroy a real eye.
fn fills_own_eye(cells: &[Player], size: usize, idx: usize, me: Player) -> (r: bool)
    requires
        idx < cells@.len(),
        cells@.len() == size * size,
        size >= 1,
    ensures
        r == own_eye(cells@, size as int, idx as int, me),
{
    let len = cells.len();
    let orth = neighbors(size, len, idx);
    let ghost spec_ns = nbrs(size as int, len as int, idx as int);
    if orth.len() < 4 {
        return false;
    }
    let mut k: usize = 0;
    while k < orth.len()
        invariant
            spec_ns == nbrs(size as int, len as int, idx as int),
            orth@.len() == spec_ns.len(),
            forall|m: int| 0 <= m < orth@.len() ==> #[trigger] orth@[m] == spec_ns[m],
            forall|m: int| 0 <= m < orth@.len() ==> #[trigger] orth@[m] < len,
            len == cells@.len(),
            0 <= k <= orth@.len(),
            forall|m: int| 0 <= m < k ==> cells@[#[trigger] spec_ns[m]] == me,
        decreases orth@.len() - k,
    {
        assert(orth@[k as int] == spec_ns[k as int]);
        if cells[orth[k]] != me {
            return false;
        }
        k += 1;
    }
    let r = idx / size;
    let c = idx % size;
    proof {
        assert(r < size && r * size + c == idx && c < size) by (nonlinear_arith)
            requires
                r == idx / size,
                c == idx % size,
                idx < size * size,
                size >= 1,
        ;
    }
    let mut dr: usize = 0;
    while dr < 2
        invariant
            r < size,
            c < size,
            r == idx / size,
            c == idx % size,
            r * size + c == idx,
            len == cells@.len(),
            len == size * size,
            dr <= 2,
            dr >= 1 ==> diagonal_own(cells@, size as int, r - 1, c - 1, me) && diagonal_own(
                cells@,
                size as int,
                r - 1,
                c + 1,
                me,
            ),
            dr >= 2 ==> diagonal_own(cells@, size as int, r + 1, c - 1, me) && diagonal_own(
                cells@,
                size as int,
                r + 1,
                c + 1,
                me,
            ),
        decreases 2 - dr,
    {
        let mut dc: usize = 0;
        while dc < 2
            invariant
                r < size,
                c < size,
                r == idx / size,
                c == idx % size,
                r * size + c == idx,
                len == cells@.len(),
                len == size * size,
                dr < 2,
                dc <= 2,
                dc >= 1 ==> diagonal_own(cells@, size as int, r - 1 + 2 * dr, c - 1, me),
                dc >= 2 ==> diagonal_own(cells@, size as int, r - 1 + 2 * dr, c + 1, me),
            decreases 2 - dc,
        {
            // Diagonal (r -/+ 1, c -/+ 1), skipped when off the board.
            let inside_r = if dr == 0 {
                r >= 1
            } else {
                r + 1 < size
            };
            let inside_c = if dc == 0 {
                c >= 1
            } else {
                c + 1 < size
            };
            if inside_r && inside_c {
                let rr = if dr == 0 {
                    r - 1
                } else {
                    r + 1
                };
                let cc = if dc == 0 {
                    c - 1
                } else {
                    c + 1
                };
                proof {
                    assert(rr * size + cc < size * size) by (nonlinear_arith)
                        requires
                            rr < size,
                            cc < size,
                    ;
                }
                if cells[rr * size + cc] != me {
                    assert(!diagonal_own(cells@, size as int, r - 1 + 2 * dr, c - 1 + 2 * dc, me));
                    assert(!own_eye(cells@, size as int, idx as int, me));
                    return false;
                }
                assert(diagonal_own(cells@, size as int, r - 1 + 2 * dr, c - 1 + 2 * dc, me));
            }
            dc += 1;
        }
        dr += 1;
    }
    true
}

/// Fewer than a third of the points are empty.
pub open spec fn late_game(cells: Seq<Player>) -> bool {
    count_of(cells, Player::Empty, cells.len() as int) * 3 < cells.len()
}

/// Rough "endgame" test: fewer than a third of the points still empty.
fn is_late(state: &GoState) -> (r: bool)
    requires
        state.wf(),
        state.cells_spec().len() <= MAX_POINTS,
    ensures
        r == late_game(state.cells_spec()),
{
    let cells = state.board();
    let mut empties: u64 = 0;
    let mut i: usize = 0;
    while i < cells.len()
        invariant
            0 <= i <= cells@.len(),
            cells@.len() <= MAX_POINTS,
            empties <= i,
            empties == count_of(cells@, Player::Empty, i as int),
        decreases cells@.len() - i,
    {
        if cells[i] == Player::Empty {
            empties += 1;
        }
        i += 1;
    }
    empties * 3 < cells.len() as u64
}

/// Largest number of stones the side to move can capture right now.
fn best_reply_capture(state: &GoState, Ghost(root): Ghost<GoState>) -> (r: u32)
    requires
        state.wf(),
        state.cells_spec().len() == root.cells_spec().len(),
        state.captures_spec().0 <= root.captures_spec().0 + root.cells_spec().len(),
        state.captures_spec().1 <= root.captures_spec().1 + root.cells_spec().len(),
        searchable(root),
    ensures
        r <= state.cells_spec().len(),
        forall|i: int|
            0 <= i < state.cells_spec().len() && #[trigger] playable(*state, i) ==> capture_gain(*state, i)
                <= r,
        r == 0 || exists|i: int|
            0 <= i < state.cells_spec().len() && #[trigger] playable(*state, i) && capture_gain(*state, i)
                == r,
{
    let cands = candidates(state);
    let mut best: u32 = 0;
    let mut k: usize = 0;
    while k < cands.len()
        invariant
            0 <= k <= cands@.len(),
            best <= state.cells_spec().len(),
            forall|j: int| 0 <= j < cands@.len() ==> cand_ok(*state, #[trigger] cands@[j]),
            forall|j: int| 0 <= j < k ==> #[trigger] cands@[j].captured <= best,
            best == 0 || exists|j: int| 0 <= j < k && #[trigger] cands@[j].captured == best,
        decreases cands@.len() - k,
    {
        if cands[k].captured > best {
            best = cands[k].captured;
        }
        k += 1;
    }
    proof {
        assert forall|i: int|
            0 <= i < state.cells_spec().len() && #[trigger] playable(*state, i) implies capture_gain(
            *state,
            i,
        ) <= best by {
            let j = choose|j: int| 0 <= j < cands@.len() && #[trigger] cands@[j].idx == i;
            assert(cand_ok(*state, cands@[j]));
        }
        if best != 0 {
            let j = choose|j: int| 0 <= j < k && #[trigger] cands@[j].captured == best;
            assert(cand_ok(*state, cands@[j]));
            assert(playable(*state, cands@[j].idx as int));
        }
    }
    best
}

} // verus!

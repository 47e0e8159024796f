//! Search-based opponent — pure engine logic, no TUI dependencies.

use crate::checkers::engine::{Checkers, PC, SIZE, Side, Status};
use crate::game_core::{first_argmax, first_max, lemma_first_max_unique, Difficulty};
use crate::random::{random_below, shuffle};
use vstd::prelude::*;

verus! {

/// Score for a won position, scaled by remaining depth so faster wins are
/// preferred over slower ones.
const WIN: i32 = 100_000;

const INF: i32 = 200_000;

/// Easy picks uniformly among root moves scoring within this many
/// centipawns of the best root move.
const EASY_BAND: i32 = 200;

const NODE_BUDGET: u32 = 1_000;

const MAN: i32 = 100;

const KING: i32 = 160;

/// Bonus per row already advanced toward the crowning row (men only).
const ADVANCE: i32 = 4;

/// Penalty for standing on an edge column.
const EDGE: i32 = 5;

/// `(from, to)` is a legal move of the side to move.
pub open spec fn is_legal_move(game: Checkers, m: (usize, usize)) -> bool {
    m.0 < 64 && game.legal_targets_spec(m.0 as int).contains(m.1)
}

/// The side to move has some legal move.
pub open spec fn has_legal_move(game: Checkers) -> bool {
    exists|f: int| 0 <= f < 64 && #[trigger] game.legal_targets_spec(f).len() > 0
}

/// The legal moves from the squares below `f`, by origin square and, for
/// one origin, in the order of [`Checkers::legal_targets`].
pub open spec fn moves_upto(game: Checkers, f: int) -> Seq<(usize, usize)>
    decreases f,
{
    if f <= 0 {
        Seq::empty()
    } else {
        let ts = game.legal_targets_spec(f - 1);
        moves_upto(game, f - 1) + Seq::new(ts.len(), |j: int| ((f - 1) as usize, ts[j]))
    }
}

/// The position after moving `m.0` to `m.1`.
pub open spec fn child_of(game: Checkers, m: (usize, usize)) -> Checkers {
    choose|c: Checkers| game.moved(m.0, m.1, c)
}

/// Scores of the moves `roots` from the `k`-th on, from the mover's side:
/// a child still in a jump chain is searched at the same depth without a
/// sign flip, any other child one ply shallower and negated; the node
/// budget is shared along the way.
pub open spec fn scores_from(
    game: Checkers,
    roots: Seq<(usize, usize)>,
    depth: int,
    k: nat,
    nodes: int,
    budget: int,
) -> Seq<int>
    decreases roots.len() - k,
{
    if k >= roots.len() {
        Seq::empty()
    } else {
        let child = child_of(game, roots[k as int]);
        let (score, n2) = if child.chain_spec() is Some {
            search(child, depth, -200_000, 200_000, nodes, budget)
        } else {
            let (v, n) = search(child, depth - 1, -200_000, 200_000, nodes, budget);
            (-v, n)
        };
        seq![score] + scores_from(game, roots, depth, k + 1, n2, budget)
    }
}

/// The highest of the first `j` scores (the first one when `j` is 1).
pub open spec fn running_max(s: Seq<int>, j: int) -> int
    decreases j,
{
    if j <= 1 {
        s[0]
    } else {
        let m = running_max(s, j - 1);
        if s[j - 1] > m {
            s[j - 1]
        } else {
            m
        }
    }
}

/// The moves among the first `k` of `roots` whose score reaches `floor`,
/// in order.
pub open spec fn band(roots: Seq<(usize, usize)>, scores: Seq<int>, floor: int, k: int) -> Seq<(usize, usize)>
    decreases k,
{
    if k <= 0 {
        Seq::empty()
    } else {
        band(roots, scores, floor, k - 1) + if scores[k - 1] >= floor {
            seq![roots[k - 1]]
        } else {
            Seq::empty()
        }
    }
}

/// Search depth per strength preset.
pub open spec fn depth_spec(difficulty: Difficulty) -> int {
    match difficulty {
        Difficulty::Easy => 1,
        Difficulty::Medium => 3,
        Difficulty::Hard => 6,
    }
}

/// The scores the root moves get when they come in the order `roots`.
pub open spec fn root_scores_spec(game: Checkers, roots: Seq<(usize, usize)>, difficulty: Difficulty) -> Seq<int> {
    scores_from(game, roots, depth_spec(difficulty), 0, 0, 1000)
}

/// What the move played in `game` at `difficulty` may be when the root
/// moves come in the order `roots`: at Easy any move of the band within 200
/// of the best score; at Medium and Hard exactly the first move with the
/// best score.
pub open spec fn pick_allowed(
    game: Checkers,
    roots: Seq<(usize, usize)>,
    difficulty: Difficulty,
    r: Option<(usize, usize)>,
) -> bool {
    let sc = root_scores_spec(game, roots, difficulty);
    if roots.len() == 0 {
        r is None
    } else if difficulty == Difficulty::Easy {
        r matches Some(m) && band(roots, sc, running_max(sc, sc.len() as int) - 200, roots.len() as int).contains(m)
    } else {
        r == Some(roots[first_argmax(sc)])
    }
}

/// Some ordering of the legal moves of `game` allows `r` by [`pick_allowed`].
pub open spec fn picked_from_some_order(game: Checkers, difficulty: Difficulty, r: Option<(usize, usize)>) -> bool {
    exists|order: Seq<(usize, usize)>|
        order.to_multiset() == moves_upto(game, 64).to_multiset() && #[trigger] pick_allowed(
            game,
            order,
            difficulty,
            r,
        )
}

/// Best legal move for the side to move, or `None` once the game is over
/// or no move exists.
///
/// Easy picks uniformly among near-best root moves; Medium/Hard search
/// deeper. Whatever order the shuffle draws, the answer is one that
/// [`pick_allowed`] allows for it.
pub fn best_move(game: &Checkers, difficulty: Difficulty) -> (r: Option<(usize, usize)>)
    requires
        game.wf(),
    ensures
        r is None <==> !(game.status_spec() is Ongoing) || !has_legal_move(*game),
        r matches Some(m) ==> is_legal_move(*game, m),
        game.status_spec() is Ongoing ==> picked_from_some_order(*game, difficulty, r),
{
    match game.status() {
        Status::Ongoing => {},
        _ => return None,
    }
    let mut roots = root_moves(game);
    let ghost before = roots@;
    shuffle(&mut roots);
    proof {
        before.to_multiset_ensures();
        roots@.to_multiset_ensures();
        assert forall|k: int| 0 <= k < roots@.len() implies is_legal_move(*game, #[trigger] roots@[k]) by {
            let x = roots@[k];
            assert(roots@.contains(x));
            assert(roots@.to_multiset().count(x) > 0);
            assert(before.to_multiset().count(x) > 0);
            assert(before.contains(x));
        }
        assert(roots@.len() == before.len()) by {
            assert(roots@.to_multiset().len() == before.to_multiset().len());
        }
    }
    let r = pick_from_order(game, &roots, difficulty);
    proof {
        assert(roots@.to_multiset() == moves_upto(*game, 64).to_multiset());
        assert(pick_allowed(*game, roots@, difficulty, r));
    }
    r
}

/// The move played when the root moves come in the order `roots`, all of
/// them legal: one that [`pick_allowed`] allows, `None` only for an empty
/// `roots`.
pub fn pick_from_order(game: &Checkers, roots: &Vec<(usize, usize)>, difficulty: Difficulty) -> (r: Option<
    (usize, usize),
>)
    requires
        game.wf(),
        forall|k: int| 0 <= k < roots@.len() ==> is_legal_move(*game, #[trigger] roots@[k]),
    ensures
        pick_allowed(*game, roots@, difficulty, r),
        r is None <==> roots@.len() == 0,
        r matches Some(m) ==> is_legal_move(*game, m),
{
    if roots.len() == 0 {
        return None;
    }
    let depth: i32 = match difficulty {
        Difficulty::Easy => 1,
        Difficulty::Medium => 3,
        Difficulty::Hard => 6,
    };
    let mut nodes: u32 = 0;
    let scores = root_scores(game, roots, depth, &mut nodes, NODE_BUDGET);
    let ghost sc = scores@.map_values(|x: i32| x as int);
    assert(sc =~= root_scores_spec(*game, roots@, difficulty));
    match difficulty {
        Difficulty::Easy => {
            let mut best: i32 = scores[0];
            let mut j: usize = 1;
            while j < scores.len()
                invariant
                    1 <= j <= scores@.len(),
                    scores@.len() == roots@.len(),
                    sc == scores@.map_values(|x: i32| x as int),
                    forall|k: int| 0 <= k < scores@.len() ==> -INF <= #[trigger] scores@[k] <= INF,
                    -INF <= best <= INF,
                    exists|k: int| 0 <= k < j && scores@[k] == best,
                    best as int == running_max(sc, j as int),
                decreases scores@.len() - j,
            {
                if scores[j] > best {
                    best = scores[j];
                }
                j += 1;
            }
            let mut pool: Vec<(usize, usize)> = Vec::new();
            let mut k: usize = 0;
            while k < roots.len()
                invariant
                    0 <= k <= roots@.len(),
                    scores@.len() == roots@.len(),
                    sc == scores@.map_values(|x: i32| x as int),
                    -INF <= best <= INF,
                    forall|m: int| 0 <= m < roots@.len() ==> is_legal_move(*game, #[trigger] roots@[m]),
                    forall|m: int| 0 <= m < pool@.len() ==> is_legal_move(*game, #[trigger] pool@[m]),
                    (exists|m: int| 0 <= m < k && scores@[m] == best) ==> pool@.len() > 0,
                    pool@ == band(roots@, sc, best - 200, k as int),
                decreases roots@.len() - k,
            {
                if scores[k] >= best - EASY_BAND {
                    pool.push(roots[k]);
                }
                k += 1;
            }
            let pick = random_below(pool.len());
            proof {
                assert(pool@.contains(pool@[pick as int]));
            }
            Some(pool[pick])
        },
        Difficulty::Medium | Difficulty::Hard => {
            let mut best: Option<((usize, usize), i32)> = None;
            let ghost mut bi: int = 0;
            let mut k: usize = 0;
            while k < roots.len()
                invariant
                    0 <= k <= roots@.len(),
                    scores@.len() == roots@.len(),
                    sc == scores@.map_values(|x: i32| x as int),
                    forall|m: int| 0 <= m < roots@.len() ==> is_legal_move(*game, #[trigger] roots@[m]),
                    best matches Some(b) ==> is_legal_move(*game, b.0),
                    k > 0 ==> best is Some,
                    k == 0 ==> best is None,
                    sc.len() == scores@.len(),
                    k > 0 ==> first_max(sc.take(k as int), bi) && best == Some((roots@[bi], scores@[bi])),
                decreases roots@.len() - k,
            {
                let score = scores[k];
                let replace = match best {
                    None => true,
                    Some((_, s)) => score > s,
                };
                let ghost prev_bi = bi;
                if replace {
                    best = Some((roots[k], score));
                    proof {
                        bi = k as int;
                    }
                }
                proof {
                    let t = sc.take(k as int + 1);
                    let t0 = sc.take(k as int);
                    assert(forall|m: int| 0 <= m < t.len() ==> #[trigger] t[m] == scores@[m] as int);
                    assert(forall|m: int| 0 <= m < t0.len() ==> #[trigger] t0[m] == scores@[m] as int);
                    if k > 0 {
                        assert(t0[prev_bi] == scores@[prev_bi] as int);
                        assert(first_max(t0, prev_bi));
                        assert forall|m: int| 0 <= m < t.len() implies t[m] <= t[bi] by {
                            if m < k {
                                assert(t0[m] <= t0[prev_bi]);
                            }
                        }
                        assert forall|m: int| 0 <= m < bi implies t[m] < t[bi] by {
                            if m < k {
                                assert(t0[m] <= t0[prev_bi]);
                                if bi == prev_bi {
                                    assert(t0[m] < t0[prev_bi]);
                                }
                            }
                        }
                    }
                    assert(first_max(t, bi));
                }
                k += 1;
            }
            proof {
                assert(sc.take(roots@.len() as int) =~= sc);
                lemma_first_max_unique(sc, bi);
            }
            match best {
                Some((mv, _)) => Some(mv),
                None => None,
            }
        },
    }
}

/// Every `(from, to)` the side to move may legally play right now, by
/// origin square. During a multi-jump chain this yields only continuations
/// from the locked piece.
fn root_moves(game: &Checkers) -> (out: Vec<(usize, usize)>)
    requires
        game.wf(),
    ensures
        forall|k: int| 0 <= k < out@.len() ==> is_legal_move(*game, #[trigger] out@[k]),
        out@.len() == 0 <==> !has_legal_move(*game),
        out@ == moves_upto(*game, 64),
{
    let mut out: Vec<(usize, usize)> = Vec::new();
    let mut from: usize = 0;
    while from < SIZE * SIZE
        invariant
            game.wf(),
            0 <= from <= 64,
            forall|k: int| 0 <= k < out@.len() ==> is_legal_move(*game, #[trigger] out@[k]),
            out@.len() == 0 <==> forall|f: int|
                0 <= f < from ==> #[trigger] game.legal_targets_spec(f).len() == 0,
            out@ == moves_upto(*game, from as int),
        decreases 64 - from,
    {
        let targets = game.legal_targets(from);
        let mut i: usize = 0;
        let ghost before = out@.len();
        while i < targets.len()
            invariant
                game.wf(),
                0 <= from < 64,
                0 <= i <= targets@.len(),
                targets@ == game.legal_targets_spec(from as int),
                out@.len() == before + i,
                forall|k: int| 0 <= k < out@.len() ==> is_legal_move(*game, #[trigger] out@[k]),
                out@ == moves_upto(*game, from as int) + Seq::new(i as nat, |j: int| (from, targets@[j])),
            decreases targets@.len() - i,
        {
            assert(targets@.contains(targets@[i as int]));
            out.push((from, targets[i]));
            i += 1;
            assert(out@ =~= moves_upto(*game, from as int) + Seq::new(i as nat, |j: int| (from, targets@[j])));
        }
        assert(moves_upto(*game, from + 1) =~= moves_upto(*game, from as int) + Seq::new(
            targets@.len(),
            |j: int| (from, targets@[j]),
        ));
        from += 1;
    }
    out
}

/// Negamax value of each root move, from the mover's perspective.
fn root_scores(
    game: &Checkers,
    roots: &Vec<(usize, usize)>,
    depth: i32,
    nodes: &mut u32,
    budget: u32,
) -> (out: Vec<i32>)
    requires
        game.wf(),
        0 <= depth <= 10,
        forall|m: int| 0 <= m < roots@.len() ==> is_legal_move(*game, #[trigger] roots@[m]),
    ensures
        out@.len() == roots@.len(),
        forall|k: int| 0 <= k < out@.len() ==> -INF <= #[trigger] out@[k] <= INF,
        out@.map_values(|x: i32| x as int) == scores_from(
            *game,
            roots@,
            depth as int,
            0,
            *old(nodes) as int,
            budget as int,
        ),
{
    let ghost all = scores_from(*game, roots@, depth as int, 0, *nodes as int, budget as int);
    let mut out: Vec<i32> = Vec::new();
    let mut k: usize = 0;
    while k < roots.len()
        invariant
            game.wf(),
            0 <= depth <= 10,
            0 <= k <= roots@.len(),
            out@.len() == k,
            forall|m: int| 0 <= m < out@.len() ==> -INF <= #[trigger] out@[m] <= INF,
            forall|m: int| 0 <= m < roots@.len() ==> is_legal_move(*game, #[trigger] roots@[m]),
            all == scores_from(*game, roots@, depth as int, 0, *old(nodes) as int, budget as int),
            all == out@.map_values(|x: i32| x as int) + scores_from(
                *game,
                roots@,
                depth as int,
                k as nat,
                *nodes as int,
                budget as int,
            ),
        decreases roots@.len() - k,
    {
        let (from, to) = roots[k];
        let mut child = *game;
        proof {
            assert(is_legal_move(*game, roots@[k as int]));
        }
        child.play(from, to);
        proof {
            let c = child_of(*game, roots@[k as int]);
            assert(game.moved(from, to, child));
            assert(game.moved(from, to, c));
            game.lemma_moved_unique(from, to, child, c);
        }
        let score = if child.chain_from().is_some() {
            // Multi-jump chain: the same side keeps moving, so the child
            // is scored without flipping perspective.
            negamax(&child, depth, -INF, INF, nodes, budget)
        } else {
            -negamax(&child, depth - 1, -INF, INF, nodes, budget)
        };
        let ghost prev = out@;
        out.push(score);
        proof {
            assert(out@.map_values(|x: i32| x as int) =~= prev.map_values(|x: i32| x as int).push(score as int));
            assert(all =~= out@.map_values(|x: i32| x as int) + scores_from(
                *game,
                roots@,
                depth as int,
                (k + 1) as nat,
                *nodes as int,
                budget as int,
            ));
        }
        k += 1;
    }
    assert(all =~= out@.map_values(|x: i32| x as int));
    out
}

/// What a piece on square `sq` is worth: 160 for a king, else 100 plus four
/// per row advanced, less five on an edge column.
pub open spec fn piece_value(pc: PC, sq: int) -> int {
    let r = sq / 8;
    let c = sq % 8;
    let base = if pc.king {
        160int
    } else {
        100 + 4 * match pc.side {
            Side::White => 7 - r,
            Side::Black => r,
        }
    };
    if c == 0 || c == 7 {
        base - 5
    } else {
        base
    }
}

/// White's piece values minus Black's over squares `0..n`.
pub open spec fn balance_upto(board: Seq<Option<PC>>, n: int) -> int
    decreases n,
{
    if n <= 0 {
        0
    } else {
        balance_upto(board, n - 1) + match board[n - 1] {
            Some(pc) => match pc.side {
                Side::White => piece_value(pc, n - 1),
                Side::Black => -piece_value(pc, n - 1),
            },
            None => 0,
        }
    }
}

/// The static evaluation for the side to move.
pub open spec fn evaluation(game: Checkers) -> int {
    match game.turn_spec() {
        Side::White => balance_upto(game.board_spec(), 64),
        Side::Black => -balance_upto(game.board_spec(), 64),
    }
}

/// The won/lost score of a finished board (a loss seen with more depth to
/// spare scores lower), the evaluation otherwise.
pub open spec fn leaf_value(game: Checkers, depth: int) -> int {
    match game.status_spec() {
        Status::Won(w) => if w == game.turn_spec() {
            100_000
        } else {
            -(100_000 + if depth > 0 {
                depth
            } else {
                0
            })
        },
        Status::Ongoing => evaluation(game),
    }
}

/// What the search answers for `game` at `depth` in the window
/// `(alpha, beta)` with `nodes` of `budget` spent, and the nodes spent
/// after it: a finished board, an exhausted depth or a spent budget gives
/// [`leaf_value`]; otherwise the call spends a node and scans the moves.
pub open spec fn search(game: Checkers, depth: int, alpha: int, beta: int, nodes: int, budget: int) -> (int, int)
    decreases budget - nodes, 1int, 0int,
{
    if !(game.status_spec() is Ongoing) || depth <= 0 || nodes >= budget {
        (leaf_value(game, depth), nodes)
    } else {
        search_scan(game, depth, alpha, beta, nodes + 1, budget, nodes + 1, 0, -200_000)
    }
}

/// The move loop of [`search`] from the `i`-th move with `nodes` spent
/// (never fewer than `floor`, what the loop started with): a child still
/// in a jump chain is searched at the same depth without a sign flip, any
/// other child one ply shallower, negated, in the negated window; once the
/// budget is spent a child is valued by [`leaf_value`]. The loop stops
/// once the window closes.
pub open spec fn search_scan(
    game: Checkers,
    depth: int,
    alpha: int,
    beta: int,
    nodes: int,
    budget: int,
    floor: int,
    i: nat,
    best: int,
) -> (int, int)
    decreases budget - floor + 1, 0int, moves_upto(game, 64).len() - i,
{
    let moves = moves_upto(game, 64);
    if i >= moves.len() || nodes < floor || floor > budget {
        (best, nodes)
    } else {
        let child = child_of(game, moves[i as int]);
        let (score, n2) = if nodes >= budget {
            if child.chain_spec() is Some {
                (leaf_value(child, depth), nodes)
            } else {
                (-leaf_value(child, depth - 1), nodes)
            }
        } else if child.chain_spec() is Some {
            search(child, depth, alpha, beta, nodes, budget)
        } else {
            let (v, n) = search(child, depth - 1, -beta, -alpha, nodes, budget);
            (-v, n)
        };
        let best2 = if score > best {
            score
        } else {
            best
        };
        let alpha2 = if best2 > alpha {
            best2
        } else {
            alpha
        };
        if alpha2 >= beta {
            (best2, n2)
        } else {
            search_scan(game, depth, alpha2, beta, n2, budget, floor, i + 1, best2)
        }
    }
}

/// Negamax with alpha-beta pruning; score is relative to the side to move.
/// Each call spends one node of the shared budget before recursing, so
/// the search ends when the budget does.
fn negamax(game: &Checkers, depth: i32, alpha: i32, beta: i32, nodes: &mut u32, budget: u32) -> (r:
    i32)
    requires
        game.wf(),
        -1 <= depth <= 10,
        -INF <= alpha <= INF,
        -INF <= beta <= INF,
    ensures
        -INF <= r <= INF,
        *final(nodes) >= *old(nodes),
        !(game.status_spec() is Ongoing) || depth <= 0 || *old(nodes) >= budget ==> r == leaf_value(
            *game,
            depth as int,
        ) && *final(nodes) == *old(nodes),
        game.status_spec() is Ongoing && depth > 0 && *old(nodes) < budget ==> *final(nodes) > *old(nodes),
        (r as int, *final(nodes) as int) == search(
            *game,
            depth as int,
            alpha as int,
            beta as int,
            *old(nodes) as int,
            budget as int,
        ),
    decreases budget - *old(nodes),
{
    match game.status() {
        Status::Won(winner) => {
            return if winner == game.turn() {
                WIN
            } else {
                // The side to move has no moves and loses; more remaining
                // depth means the result was seen earlier.
                -(WIN + if depth > 0 {
                    depth
                } else {
                    0
                })
            };
        },
        Status::Ongoing => {},
    }
    if depth <= 0 || *nodes >= budget {
        return evaluate(game);
    }
    *nodes = *nodes + 1;
    let moves = root_moves(game);
    let mut lo = alpha;
    let mut best: i32 = -INF;
    let mut i: usize = 0;
    while i < moves.len()
        invariant_except_break
            search(*game, depth as int, alpha as int, beta as int, *old(nodes) as int, budget as int)
                == search_scan(
                *game,
                depth as int,
                lo as int,
                beta as int,
                *nodes as int,
                budget as int,
                *old(nodes) + 1,
                i as nat,
                best as int,
            ),
        invariant
            moves@ == moves_upto(*game, 64),
            game.wf(),
            1 <= depth <= 10,
            0 <= i <= moves@.len(),
            *nodes >= *old(nodes) + 1,
            *old(nodes) < budget,
            -INF <= lo <= INF,
            -INF <= beta <= INF,
            -INF <= best <= INF,
            forall|m: int| 0 <= m < moves@.len() ==> is_legal_move(*game, #[trigger] moves@[m]),
        ensures
            (best as int, *nodes as int) == search(
                *game,
                depth as int,
                alpha as int,
                beta as int,
                *old(nodes) as int,
                budget as int,
            ),
            *nodes >= *old(nodes) + 1,
            -INF <= best <= INF,
        decreases moves@.len() - i,
    {
        let (from, to) = moves[i];
        let mut child = *game;
        proof {
            assert(is_legal_move(*game, moves@[i as int]));
        }
        child.play(from, to);
        proof {
            let c = child_of(*game, moves@[i as int]);
            assert(game.moved(from, to, child));
            assert(game.moved(from, to, c));
            game.lemma_moved_unique(from, to, child, c);
        }
        if *nodes >= budget {
            // Budget spent: every deeper call would evaluate statically.
            let v = if child.chain_from().is_some() {
                evaluate_or_terminal(&child, depth)
            } else {
                -evaluate_or_terminal(&child, depth - 1)
            };
            if v > best {
                best = v;
            }
        } else {
            let score = if child.chain_from().is_some() {
                negamax(&child, depth, lo, beta, nodes, budget)
            } else {
                -negamax(&child, depth - 1, -beta, -lo, nodes, budget)
            };
            if score > best {
                best = score;
            }
        }
        if best > lo {
            lo = best;
        }
        if lo >= beta {
            break ;
        }
        i += 1;
    }
    best
}

/// What [`negamax`] answers once the node budget is spent: the won/lost
/// score on a finished board, the static evaluation otherwise.
fn evaluate_or_terminal(game: &Checkers, depth: i32) -> (r: i32)
    requires
        game.wf(),
        -1 <= depth <= 10,
    ensures
        r == leaf_value(*game, depth as int),
        -INF <= r <= INF,
{
    match game.status() {
        Status::Won(winner) => {
            if winner == game.turn() {
                WIN
            } else {
                -(WIN + if depth > 0 {
                    depth
                } else {
                    0
                })
            }
        },
        Status::Ongoing => evaluate(game),
    }
}

/// Heuristic board value from the perspective of the side to move:
/// material plus small positional terms.
fn evaluate(game: &Checkers) -> (r: i32)
    requires
        game.wf(),
    ensures
        r == evaluation(*game),
        -64 * 200 <= r <= 64 * 200,
{
    let mut balance: i32 = 0;
    let mut sq: usize = 0;
    while sq < SIZE * SIZE
        invariant
            game.wf(),
            0 <= sq <= 64,
            balance == balance_upto(game.board_spec(), sq as int),
            -200 * sq <= balance <= 200 * sq,
        decreases 64 - sq,
    {
        match game.piece_at(sq) {
            Some(pc) => {
                let r = (sq / SIZE) as i32;
                let c = (sq % SIZE) as i32;
                let mut value: i32 = if pc.king {
                    KING
                } else {
                    MAN
                };
                if !pc.king {
                    let advanced: i32 = match pc.side {
                        Side::White => 7 - r,
                        Side::Black => r,
                    };
                    value = value + ADVANCE * advanced;
                }
                if c == 0 || c == 7 {
                    value = value - EDGE;
                }
                balance = match pc.side {
                    Side::White => balance + value,
                    Side::Black => balance - value,
                };
            },
            None => {},
        }
        sq += 1;
    }
    match game.turn() {
        Side::White => balance,
        Side::Black => -balance,
    }
}

} // verus!

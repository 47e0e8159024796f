//! Pure search for the built-in chess AI: negamax with alpha-beta pruning.
//!
//! The module reads the rules engine and answers with `(from, to)` square
//! pairs drawn from `legal_targets`.

use crate::chess::engine::{
    after_spec, any_legal, legal_spec, legal_targets_spec, lemma_legal_targets_contains, refreshed, Chess, Kind,
    Piece, Position,
    Side, Status,
};
use crate::game_core::Difficulty;
use crate::random::shuffle;
use vstd::prelude::*;

verus! {

/// Centipawn values shared by evaluation and capture ordering.
const PAWN: i32 = 100;

const KNIGHT: i32 = 300;

const BISHOP: i32 = 320;

const ROOK: i32 = 500;

const QUEEN: i32 = 900;

/// Score magnitude for a forced mate; shaved by ply so faster mates win.
const MATE: i32 = 100_000;

/// Window bound safely beyond any reachable score.
const INF: i32 = 200_000;

const NODE_BUDGET: u32 = 64;

const EASY_BLUNDER_CP: i32 = 250;

/// Centipawn value of a piece kind (kings count nothing).
pub open spec fn value_spec(kind: Kind) -> i32 {
    match kind {
        Kind::Pawn => 100,
        Kind::Knight => 300,
        Kind::Bishop => 320,
        Kind::Rook => 500,
        Kind::Queen => 900,
        Kind::King => 0,
    }
}

/// Value of whatever stands on the destination of a move.
pub open spec fn victim_value(p: Position, m: (usize, usize)) -> i32 {
    match p.board[m.1 as int] {
        Some(q) => value_spec(q.kind),
        None => 0,
    }
}

/// `m` is a legal move in `p`.
pub open spec fn is_legal_move(p: Position, m: (usize, usize)) -> bool {
    legal_spec(p, m.0 as int, m.1 as int)
}

/// Search depth per strength preset.
pub open spec fn depth_spec(difficulty: Difficulty) -> i32 {
    match difficulty {
        Difficulty::Easy => 1,
        Difficulty::Medium => 3,
        Difficulty::Hard => 4,
    }
}

/// Reward for standing near the middle: six per ring in from the rim.
pub open spec fn center_bonus_spec(r: int, c: int) -> int {
    let rr = if r > 7 - r {
        r
    } else {
        7 - r
    };
    let cc = if c > 7 - c {
        c
    } else {
        7 - c
    };
    let ring = if cc > rr {
        cc
    } else {
        rr
    };
    (7 - ring) * 6
}

/// What a piece on square `i` is worth: its material, plus centrality for
/// knights and bishops, plus four per row advanced for pawns.
pub open spec fn piece_worth(pc: Piece, i: int) -> int {
    let r = i / 8;
    let c = i % 8;
    value_spec(pc.kind) + match pc.kind {
        Kind::Knight => center_bonus_spec(r, c),
        Kind::Bishop => center_bonus_spec(r, c),
        Kind::Pawn => 4 * match pc.side {
            Side::White => if r < 6 {
                6 - r
            } else {
                0
            },
            Side::Black => if r > 1 {
                r - 1
            } else {
                0
            },
        },
        _ => 0,
    }
}

/// White's worth minus Black's over squares `0..n`.
pub open spec fn material_upto(board: Seq<Option<Piece>>, n: int) -> int
    decreases n,
{
    if n <= 0 {
        0
    } else {
        material_upto(board, n - 1) + match board[n - 1] {
            Some(pc) => if pc.side == Side::White {
                piece_worth(pc, n - 1)
            } else {
                -piece_worth(pc, n - 1)
            },
            None => 0,
        }
    }
}

/// The static evaluation of `p` for the side to move.
pub open spec fn evaluation(p: Position) -> int {
    if p.turn == Side::White {
        material_upto(p.board, 64)
    } else {
        -material_upto(p.board, 64)
    }
}

/// What the search answers without looking ahead: the mate score (shaved
/// by `ply`) on a won board, zero on stalemate, the evaluation otherwise.
pub open spec fn leaf_value(p: Position, ply: int) -> int {
    match p.status {
        Status::Won(_) => -(100_000 - ply),
        Status::Stalemate => 0,
        Status::Ongoing => evaluation(p),
    }
}

fn depth_of(difficulty: Difficulty) -> (d: i32)
    ensures
        d == depth_spec(difficulty),
        1 <= d <= 4,
{
    match difficulty {
        Difficulty::Easy => 1,
        Difficulty::Medium => 3,
        Difficulty::Hard => 4,
    }
}

fn value(kind: Kind) -> (v: i32)
    ensures
        v == value_spec(kind),
{
    match kind {
        Kind::Pawn => PAWN,
        Kind::Knight => KNIGHT,
        Kind::Bishop => BISHOP,
        Kind::Rook => ROOK,
        Kind::Queen => QUEEN,
        Kind::King => 0,
    }
}

/// Small reward for occupying the middle rings, zero on the rim.
fn center_bonus(r: usize, c: usize) -> (b: i32)
    requires
        r < 8,
        c < 8,
    ensures
        b == center_bonus_spec(r as int, c as int),
        0 <= b <= 18,
{
    let mut ring = if r > 7 - r {
        r
    } else {
        7 - r
    };
    let cm = if c > 7 - c {
        c
    } else {
        7 - c
    };
    if cm > ring {
        ring = cm;
    }
    // 4 near the centre .. 7 at edges
    (7 - ring as i32) * 6
}

/// Static evaluation in centipawns from the side-to-move perspective:
/// material plus light knight/bishop centrality and pawn advancement.
fn evaluate(game: &Chess) -> (score: i32)
    ensures
        score == evaluation(game@),
        -64 * 1000 <= score <= 64 * 1000,
{
    let board = game.board();
    let mut score: i32 = 0;
    let mut i: usize = 0;
    while i < 64
        invariant
            0 <= i <= 64,
            board@ == game@.board,
            score == material_upto(board@, i as int),
            -1000 * i <= score <= 1000 * i,
        decreases 64 - i,
    {
        match board[i] {
            Some(piece) => {
                let mut worth = value(piece.kind);
                let (r, c) = (i / 8, i % 8);
                match piece.kind {
                    Kind::Knight | Kind::Bishop => worth = worth + center_bonus(r, c),
                    Kind::Pawn => {
                        let steps: usize = match piece.side {
                            Side::White => if r < 6 {
                                6 - r
                            } else {
                                0
                            },
                            Side::Black => if r > 1 {
                                r - 1
                            } else {
                                0
                            },
                        };
                        worth = worth + (steps * 4) as i32;
                    },
                    _ => {},
                }
                score = match piece.side {
                    Side::White => score + worth,
                    Side::Black => score - worth,
                };
            },
            None => {},
        }
        i += 1;
    }
    match game.turn() {
        Side::White => score,
        Side::Black => -score,
    }
}

/// The legal moves from the squares below `f`, by origin square and, for
/// one origin, in the order of [`Chess::legal_targets`].
pub open spec fn moves_upto(p: Position, f: int) -> Seq<(usize, usize)>
    decreases f,
{
    if f <= 0 {
        Seq::empty()
    } else {
        let ts = legal_targets_spec(p, f - 1);
        moves_upto(p, f - 1) + Seq::new(ts.len(), |j: int| ((f - 1) as usize, ts[j]))
    }
}

/// The moves among the first `k` of `s` whose victim is worth `v`, in order.
pub open spec fn victims_of(p: Position, s: Seq<(usize, usize)>, v: i32, k: int) -> Seq<(usize, usize)>
    decreases k,
{
    if k <= 0 {
        Seq::empty()
    } else {
        victims_of(p, s, v, k - 1) + if victim_value(p, s[k - 1]) == v {
            seq![s[k - 1]]
        } else {
            Seq::empty()
        }
    }
}

/// The moves of `s` regrouped by the first `n` victim classes, the most
/// valuable first, keeping the order of `s` within a class.
pub open spec fn by_victim(p: Position, s: Seq<(usize, usize)>, n: int) -> Seq<(usize, usize)>
    decreases n,
{
    if n <= 0 {
        Seq::empty()
    } else {
        by_victim(p, s, n - 1) + victims_of(p, s, class_spec(n - 1), s.len() as int)
    }
}

/// The moves the search tries in `p`, in the order it tries them.
pub open spec fn ordered_moves(p: Position) -> Seq<(usize, usize)> {
    by_victim(p, moves_upto(p, 64), 6)
}

/// Every legal move for the side to move, most valuable victims first
/// (moves with equal victims keep square order).
fn legal_moves(game: &Chess) -> (out: Vec<(usize, usize)>)
    ensures
        out@ == ordered_moves(game@),
        forall|k: int| 0 <= k < out@.len() ==> is_legal_move(game@, #[trigger] out@[k]),
        out@.len() == 0 <==> !any_legal(game@),
        forall|i: int, j: int|
            0 <= i < j < out@.len() ==> victim_value(game@, #[trigger] out@[i]) >= victim_value(
                game@,
                #[trigger] out@[j],
            ),
{
    let mut all: Vec<(usize, usize)> = Vec::new();
    let mut from: usize = 0;
    while from < 64
        invariant
            0 <= from <= 64,
            forall|k: int| 0 <= k < all@.len() ==> is_legal_move(game@, #[trigger] all@[k]),
            forall|k: int| 0 <= k < all@.len() ==> (#[trigger] all@[k]).1 < 64,
            all@.len() == 0 <==> forall|f: int| 0 <= f < from ==> #[trigger] legal_targets_spec(game@, f).len() == 0,
            all@ == moves_upto(game@, from as int),
        decreases 64 - from,
    {
        let targets = game.legal_targets(from);
        let mut i: usize = 0;
        let ghost before = all@.len();
        while i < targets.len()
            invariant
                0 <= from < 64,
                0 <= i <= targets@.len(),
                targets@ == legal_targets_spec(game@, from as int),
                all@.len() == before + i,
                forall|k: int| 0 <= k < all@.len() ==> is_legal_move(game@, #[trigger] all@[k]),
                forall|k: int| 0 <= k < all@.len() ==> (#[trigger] all@[k]).1 < 64,
                all@ == moves_upto(game@, from as int) + Seq::new(i as nat, |j: int| (from, targets@[j])),
            decreases targets@.len() - i,
        {
            proof {
                assert(targets@.contains(targets@[i as int]));
                lemma_legal_targets_contains(game@, from as int, targets@[i as int] as int);
            }
            all.push((from, targets[i]));
            i += 1;
            assert(all@ =~= moves_upto(game@, from as int) + Seq::new(i as nat, |j: int| (from, targets@[j])));
        }
        assert(moves_upto(game@, from + 1) =~= moves_upto(game@, from as int) + Seq::new(
            targets@.len(),
            |j: int| (from, targets@[j]),
        ));
        from += 1;
    }
    proof {
        if any_legal(game@) {
            let (f, t) = choose|f: int, t: int| #[trigger] legal_spec(game@, f, t);
            lemma_legal_targets_contains(game@, f, t);
            assert(legal_targets_spec(game@, f).len() > 0);
        }
        if !any_legal(game@) && all@.len() > 0 {
            let m = all@[0];
            assert(is_legal_move(game@, m));
            assert(legal_spec(game@, m.0 as int, m.1 as int));
        }
    }
    // Stable ordering by victim value, highest first: one pass per value.
    let board = game.board();
    let mut out: Vec<(usize, usize)> = Vec::new();
    let mut pass: usize = 0;
    while pass < 6
        invariant
            0 <= pass <= 6,
            board@ == game@.board,
            forall|k: int| 0 <= k < all@.len() ==> is_legal_move(game@, #[trigger] all@[k]),
            forall|k: int| 0 <= k < all@.len() ==> (#[trigger] all@[k]).1 < 64,
            forall|k: int| 0 <= k < out@.len() ==> is_legal_move(game@, #[trigger] out@[k]),
            forall|i: int, j: int|
                0 <= i < j < out@.len() ==> victim_value(game@, #[trigger] out@[i]) >= victim_value(
                    game@,
                    #[trigger] out@[j],
                ),
            pass > 0 ==> forall|k: int| 0 <= k < out@.len() ==> victim_value(game@, #[trigger] out@[k]) >= class_spec(pass - 1),
            all@.len() > 0 && pass > 0 && victim_value(game@, all@[0]) >= class_spec(pass - 1) ==> out@.len() > 0,
            pass == 0 ==> out@.len() == 0,
            all@ == moves_upto(game@, 64),
            out@ == by_victim(game@, all@, pass as int),
        decreases 6 - pass,
    {
        let class = class_of(pass);
        let ghost before = out@;
        let mut k: usize = 0;
        while k < all.len()
            invariant
                0 <= pass < 6,
                0 <= k <= all@.len(),
                class == class_spec(pass as int),
                board@ == game@.board,
                forall|m: int| 0 <= m < all@.len() ==> is_legal_move(game@, #[trigger] all@[m]),
                forall|m: int| 0 <= m < all@.len() ==> (#[trigger] all@[m]).1 < 64,
                forall|m: int| 0 <= m < out@.len() ==> is_legal_move(game@, #[trigger] out@[m]),
                out@.len() >= before.len(),
                forall|m: int| 0 <= m < before.len() ==> out@[m] == before[m],
                forall|m: int| before.len() <= m < out@.len() ==> victim_value(game@, #[trigger] out@[m]) == class,
                all@.len() > 0 && k > 0 && victim_value(game@, all@[0]) == class ==> out@.len() > before.len(),
                forall|i: int, j: int|
                    0 <= i < j < before.len() ==> victim_value(game@, #[trigger] before[i]) >= victim_value(
                        game@,
                        #[trigger] before[j],
                    ),
                pass > 0 ==> forall|m: int| 0 <= m < before.len() ==> victim_value(game@, #[trigger] before[m]) >= class_spec(pass - 1),
                pass == 0 ==> before.len() == 0,
                before == by_victim(game@, all@, pass as int),
                out@ == before + victims_of(game@, all@, class, k as int),
            decreases all@.len() - k,
        {
            let m = all[k];
            let v = match board[m.1] {
                Some(q) => value(q.kind),
                None => 0,
            };
            if v == class {
                out.push(m);
            }
            k += 1;
            assert(out@ =~= before + victims_of(game@, all@, class, k as int));
        }
        proof {
            assert(pass > 0 ==> class_spec(pass - 1) > class_spec(pass as int));
            assert forall|i: int, j: int|
                0 <= i < j < out@.len() implies victim_value(game@, #[trigger] out@[i]) >= victim_value(
                    game@,
                    #[trigger] out@[j],
                ) by {
                if j < before.len() {
                    assert(out@[i] == before[i] && out@[j] == before[j]);
                } else if i < before.len() {
                    assert(out@[i] == before[i]);
                    if pass > 0 {
                        assert(victim_value(game@, before[i]) >= class_spec(pass - 1));
                    }
                }
            }
            assert forall|m: int| 0 <= m < out@.len() implies victim_value(game@, #[trigger] out@[m]) >= class_spec(pass as int) by {
                if m < before.len() {
                    assert(out@[m] == before[m]);
                    if pass > 0 {
                        assert(victim_value(game@, before[m]) >= class_spec(pass - 1));
                    }
                } else {
                    assert(victim_value(game@, out@[m]) == class);
                    assert(class == class_spec(pass as int));
                }
            }
        }
        pass += 1;
    }
    proof {
        if all@.len() > 0 {
            let m = all@[0];
            assert(victim_value(game@, m) >= 0i32) by {
                match game@.board[m.1 as int] {
                    Some(q) => {},
                    None => {},
                }
            }
            assert(out@.len() > 0);
        }
        if out@.len() > 0 {
            let m = out@[0];
            assert(is_legal_move(game@, m));
            assert(legal_spec(game@, m.0 as int, m.1 as int));
        }
    }
    out
}

/// Victim values in the order [`legal_moves`] lists them.
pub open spec fn class_spec(pass: int) -> i32 {
    if pass == 0 {
        900
    } else if pass == 1 {
        500
    } else if pass == 2 {
        320
    } else if pass == 3 {
        300
    } else if pass == 4 {
        100
    } else {
        0
    }
}

fn class_of(pass: usize) -> (v: i32)
    ensures
        v == class_spec(pass as int),
{
    if pass == 0 {
        QUEEN
    } else if pass == 1 {
        ROOK
    } else if pass == 2 {
        BISHOP
    } else if pass == 3 {
        KNIGHT
    } else if pass == 4 {
        PAWN
    } else {
        0
    }
}

/// What [`negamax`] answers without searching: the mate score on a won
/// board, zero on stalemate, the static evaluation otherwise.
fn terminal_or_eval(game: &Chess, ply: i32) -> (r: i32)
    requires
        0 <= ply <= 10,
    ensures
        r == leaf_value(game@, ply as int),
        -INF <= r <= INF,
{
    match game.status() {
        Status::Won(_) => -(MATE - ply),
        Status::Stalemate => 0,
        Status::Ongoing => evaluate(game),
    }
}

/// The position after the legal move `m`.
pub open spec fn child_of(p: Position, m: (usize, usize)) -> Position {
    refreshed(after_spec(p, m.0 as int, m.1 as int))
}

/// What the search answers for `p` at `depth` with `ply` plies played, in
/// the window `(alpha, beta)`, with `nodes` of `budget` spent, and the
/// nodes spent after it: each searching call spends one node and tries
/// [`ordered_moves`] in turn; once the budget is spent a child is valued
/// without searching.
pub open spec fn search(p: Position, depth: nat, ply: int, alpha: int, beta: int, nodes: int, budget: int) -> (
    int,
    int,
)
    decreases depth, 1int, 0int,
{
    match p.status {
        Status::Won(_) => (-(100_000 - ply), nodes),
        Status::Stalemate => (0, nodes),
        Status::Ongoing => if depth == 0 || nodes >= budget {
            (evaluation(p), nodes)
        } else {
            search_scan(p, depth, ply, alpha, beta, nodes + 1, budget, 0, -200_000)
        },
    }
}

/// The move loop of [`search`] from the `i`-th move, with the best score
/// so far and the window's lower edge raised to `alpha`; it stops early
/// once `alpha` reaches `beta`.
pub open spec fn search_scan(
    p: Position,
    depth: nat,
    ply: int,
    alpha: int,
    beta: int,
    nodes: int,
    budget: int,
    i: nat,
    best: int,
) -> (int, int)
    decreases depth, 0int, ordered_moves(p).len() - i,
{
    let moves = ordered_moves(p);
    if i >= moves.len() || depth == 0 {
        (best, nodes)
    } else {
        let child = child_of(p, moves[i as int]);
        let (score, n2) = if nodes >= budget {
            (-leaf_value(child, ply + 1), nodes)
        } else {
            let (v, n) = search(child, (depth - 1) as nat, ply + 1, -beta, -alpha, nodes, budget);
            (-v, n)
        };
        let best2 = if score > best {
            score
        } else {
            best
        };
        let alpha2 = if best2 > alpha {
            best2
        } else {
            alpha
        };
        if alpha2 >= beta {
            (best2, n2)
        } else {
            search_scan(p, depth, ply, alpha2, beta, n2, budget, i + 1, best2)
        }
    }
}

/// Negamax with alpha-beta pruning; scores always favour faster mates.
/// Each searching call spends one node of the shared budget.
fn negamax(game: &Chess, depth: i32, ply: i32, alpha: i32, beta: i32, nodes: &mut u32, budget: u32) -> (r:
    i32)
    requires
        0 <= depth <= 4,
        0 <= ply <= 5,
        depth + ply <= 5,
        -INF <= alpha <= INF,
        -INF <= beta <= INF,
    ensures
        -INF <= r <= INF,
        *final(nodes) >= *old(nodes),
        !(game@.status is Ongoing) ==> r == leaf_value(game@, ply as int) && *final(nodes) == *old(nodes),
        game@.status is Ongoing && (depth == 0 || *old(nodes) >= budget) ==> r == evaluation(game@)
            && *final(nodes) == *old(nodes),
        game@.status is Ongoing && depth > 0 && *old(nodes) < budget ==> *final(nodes) > *old(nodes),
        (r as int, *final(nodes) as int) == search(
            game@,
            depth as nat,
            ply as int,
            alpha as int,
            beta as int,
            *old(nodes) as int,
            budget as int,
        ),
    decreases budget - *old(nodes),
{
    match game.status() {
        Status::Won(_) => return -(MATE - ply),
        Status::Stalemate => return 0,
        Status::Ongoing => {},
    }
    if depth == 0 || *nodes >= budget {
        return evaluate(game);
    }
    *nodes = *nodes + 1;
    let moves = legal_moves(game);
    let mut lo = alpha;
    let mut best: i32 = -INF;
    let mut i: usize = 0;
    while i < moves.len()
        invariant_except_break
            search(game@, depth as nat, ply as int, alpha as int, beta as int, *old(nodes) as int, budget as int)
                == search_scan(game@, depth as nat, ply as int, lo as int, beta as int, *nodes as int, budget as int, i as nat, best as int),
        invariant
            1 <= depth <= 4,
            0 <= ply <= 4,
            depth + ply <= 5,
            0 <= i <= moves@.len(),
            moves@ == ordered_moves(game@),
            forall|k: int| 0 <= k < moves@.len() ==> is_legal_move(game@, #[trigger] moves@[k]),
            *nodes >= *old(nodes) + 1,
            *old(nodes) < budget,
            -INF <= lo <= INF,
            -INF <= beta <= INF,
            -INF <= best <= INF,
        ensures
            (best as int, *nodes as int) == search(
                game@,
                depth as nat,
                ply as int,
                alpha as int,
                beta as int,
                *old(nodes) as int,
                budget as int,
            ),
            *nodes >= *old(nodes) + 1,
            -INF <= best <= INF,
        decreases moves@.len() - i,
    {
        let (from, to) = moves[i];
        let mut child = *game;
        child.play(from, to);
        proof {
            assert(is_legal_move(game@, moves@[i as int]));
        }
        let score = if *nodes >= budget {
            // Budget spent: the deeper call would answer without searching.
            -terminal_or_eval(&child, ply + 1)
        } else {
            -negamax(&child, depth - 1, ply + 1, -beta, -lo, nodes, budget)
        };
        if score > best {
            best = score;
        }
        if best > lo {
            lo = best;
        }
        if lo >= beta {
            break ;
        }
        i += 1;
    }
    best
}

/// Medium and Hard's root loop over `root` from the `k`-th move: each move
/// is searched one ply shallower with the window's upper edge at minus the
/// best score so far, a move replaces the pick only with a strictly higher
/// score, and the loop stops once the node budget is spent.
pub open spec fn root_best(
    p: Position,
    root: Seq<(usize, usize)>,
    depth: nat,
    k: nat,
    alpha: int,
    best: (usize, usize),
    nodes: int,
) -> (usize, usize)
    decreases root.len() - k,
{
    if k >= root.len() || nodes >= 64 {
        best
    } else {
        let (v, n2) = search(child_of(p, root[k as int]), (depth - 1) as nat, 1, -200_000, -alpha, nodes, 64);
        if -v > alpha {
            root_best(p, root, depth, k + 1, -v, root[k as int], n2)
        } else {
            root_best(p, root, depth, k + 1, alpha, best, n2)
        }
    }
}

/// Easy's scores for the root moves from the `k`-th on, each searched to
/// depth `d` in the full window, the node budget shared along the way.
pub open spec fn easy_scores(p: Position, root: Seq<(usize, usize)>, d: nat, k: nat, nodes: int) -> Seq<int>
    decreases root.len() - k,
{
    if k >= root.len() {
        Seq::empty()
    } else {
        let (v, n2) = search(child_of(p, root[k as int]), d, 1, -200_000, 200_000, nodes, 64);
        seq![-v] + easy_scores(p, root, d, k + 1, n2)
    }
}

/// The highest of the first `j` scores (the first one when `j` is 1).
pub open spec fn running_max(s: Seq<int>, j: int) -> int
    decreases j,
{
    if j <= 1 {
        s[0]
    } else {
        let m = running_max(s, j - 1);
        if s[j - 1] > m {
            s[j - 1]
        } else {
            m
        }
    }
}

/// The first index from `k` on whose score reaches `floor`.
pub open spec fn first_within(s: Seq<int>, floor: int, k: nat) -> Option<int>
    decreases s.len() - k,
{
    if k >= s.len() {
        None
    } else if s[k as int] >= floor {
        Some(k as int)
    } else {
        first_within(s, floor, k + 1)
    }
}

/// The move played in `p` at `difficulty` when the root moves come in the
/// order `root`: Easy plays the first move within 250 centipawns of the
/// best score, Medium and Hard the result of the root loop.
pub open spec fn pick_spec(p: Position, root: Seq<(usize, usize)>, difficulty: Difficulty) -> Option<
    (usize, usize),
> {
    let d = depth_spec(difficulty);
    if root.len() == 0 {
        None
    } else if difficulty == Difficulty::Easy {
        let s = easy_scores(p, root, (d - 1) as nat, 0, 0);
        match first_within(s, running_max(s, s.len() as int) - 250, 0) {
            Some(k) => Some(root[k]),
            None => None,
        }
    } else {
        Some(root_best(p, root, d as nat, 0, -200_000, root[0], 0))
    }
}

/// Some ordering of the legal moves of `p` makes [`pick_spec`] answer `r`.
pub open spec fn picked_from_some_order(p: Position, difficulty: Difficulty, r: Option<(usize, usize)>) -> bool {
    exists|order: Seq<(usize, usize)>|
        order.to_multiset() == ordered_moves(p).to_multiset() && #[trigger] pick_spec(p, order, difficulty) == r
}

/// The move played when the root moves come in the order `root`, all of
/// them legal: see [`pick_spec`]. `None` only for an empty `root`.
pub fn pick_from_order(game: &Chess, root: &Vec<(usize, usize)>, difficulty: Difficulty) -> (r: Option<
    (usize, usize),
>)
    requires
        forall|k: int| 0 <= k < root@.len() ==> is_legal_move(game@, #[trigger] root@[k]),
    ensures
        r == pick_spec(game@, root@, difficulty),
        r is None <==> root@.len() == 0,
        r matches Some(m) ==> is_legal_move(game@, m),
{
    if root.len() == 0 {
        return None;
    }
    let depth = depth_of(difficulty);
    let budget = NODE_BUDGET;
    let mut nodes: u32 = 0;
    match difficulty {
        Difficulty::Easy => {
            let ghost all = easy_scores(game@, root@, (depth - 1) as nat, 0, 0);
            let mut scores: Vec<i32> = Vec::new();
            let mut k: usize = 0;
            while k < root.len()
                invariant
                    0 <= k <= root@.len(),
                    1 <= depth <= 4,
                    depth == depth_spec(difficulty),
                    budget == 64,
                    scores@.len() == k,
                    forall|m: int| 0 <= m < scores@.len() ==> -INF <= #[trigger] scores@[m] <= INF,
                    forall|m: int| 0 <= m < root@.len() ==> is_legal_move(game@, #[trigger] root@[m]),
                    all == easy_scores(game@, root@, (depth - 1) as nat, 0, 0),
                    all == scores@.map_values(|x: i32| x as int) + easy_scores(
                        game@,
                        root@,
                        (depth - 1) as nat,
                        k as nat,
                        nodes as int,
                    ),
                decreases root@.len() - k,
            {
                let (from, to) = root[k];
                let mut child = *game;
                proof {
                    assert(is_legal_move(game@, root@[k as int]));
                }
                child.play(from, to);
                let s = -negamax(&child, depth - 1, 1, -INF, INF, &mut nodes, budget);
                let ghost prev = scores@;
                scores.push(s);
                proof {
                    assert(scores@.map_values(|x: i32| x as int) =~= prev.map_values(|x: i32| x as int).push(
                        s as int,
                    ));
                    assert(all =~= scores@.map_values(|x: i32| x as int) + easy_scores(
                        game@,
                        root@,
                        (depth - 1) as nat,
                        (k + 1) as nat,
                        nodes as int,
                    ));
                }
                k += 1;
            }
            let ghost sc = scores@.map_values(|x: i32| x as int);
            assert(all =~= sc);
            let mut best_score: i32 = scores[0];
            let mut j: usize = 1;
            while j < scores.len()
                invariant
                    1 <= j <= scores@.len(),
                    sc == scores@.map_values(|x: i32| x as int),
                    forall|m: int| 0 <= m < scores@.len() ==> -INF <= #[trigger] scores@[m] <= INF,
                    -INF <= best_score <= INF,
                    exists|m: int| 0 <= m < j && scores@[m] == best_score,
                    best_score as int == running_max(sc, j as int),
                    sc.len() == scores@.len(),
                decreases scores@.len() - j,
            {
                if scores[j] > best_score {
                    best_score = scores[j];
                }
                j += 1;
            }
            let mut k: usize = 0;
            while k < root.len()
                invariant
                    0 <= k <= root@.len(),
                    scores@.len() == root@.len(),
                    sc == scores@.map_values(|x: i32| x as int),
                    -INF <= best_score <= INF,
                    exists|m: int| 0 <= m < scores@.len() && scores@[m] == best_score,
                    forall|m: int| 0 <= m < k ==> scores@[m] < best_score - EASY_BLUNDER_CP,
                    forall|m: int| 0 <= m < root@.len() ==> is_legal_move(game@, #[trigger] root@[m]),
                    first_within(sc, best_score - 250, 0) == first_within(sc, best_score - 250, k as nat),
                    best_score as int == running_max(sc, sc.len() as int),
                    sc == easy_scores(game@, root@, (depth - 1) as nat, 0, 0),
                    depth == depth_spec(difficulty),
                    difficulty == Difficulty::Easy,
                decreases root@.len() - k,
            {
                if scores[k] >= best_score - EASY_BLUNDER_CP {
                    return Some(root[k]);
                }
                k += 1;
            }
            None
        },
        _ => {
            let mut best = root[0];
            let mut alpha: i32 = -INF;
            let mut k: usize = 0;
            while k < root.len()
                invariant_except_break
                    root_best(game@, root@, depth as nat, 0, -200_000, root@[0], 0) == root_best(
                        game@,
                        root@,
                        depth as nat,
                        k as nat,
                        alpha as int,
                        best,
                        nodes as int,
                    ),
                invariant
                    0 <= k <= root@.len(),
                    1 <= depth <= 4,
                    budget == 64,
                    -INF <= alpha <= INF,
                    is_legal_move(game@, best),
                    forall|m: int| 0 <= m < root@.len() ==> is_legal_move(game@, #[trigger] root@[m]),
                ensures
                    root_best(game@, root@, depth as nat, 0, -200_000, root@[0], 0) == best,
                    is_legal_move(game@, best),
                decreases root@.len() - k,
            {
                if nodes >= budget {
                    break ;
                }
                let (from, to) = root[k];
                let mut child = *game;
                proof {
                    assert(is_legal_move(game@, root@[k as int]));
                }
                child.play(from, to);
                let score = -negamax(&child, depth - 1, 1, -INF, -alpha, &mut nodes, budget);
                if score > alpha {
                    alpha = score;
                    best = (from, to);
                }
                k += 1;
            }
            Some(best)
        },
    }
}

/// Pick a move for the side to move, or `None` when the game is over.
///
/// Easy shuffles the root moves and plays the first one landing within a
/// 250cp blunder window of the best, keeping games winnable for humans.
/// Medium/Hard shuffle only to break ties, then play strictly optimal moves.
/// Whatever order the shuffle draws, the answer is [`pick_spec`] of it.
pub fn best_move(game: &Chess, difficulty: Difficulty) -> (r: Option<(usize, usize)>)
    ensures
        r is None <==> !any_legal(game@),
        r matches Some(m) ==> legal_spec(game@, m.0 as int, m.1 as int),
        picked_from_some_order(game@, difficulty, r),
{
    let mut root = legal_moves(game);
    let ghost before = root@;
    shuffle(&mut root);
    proof {
        before.to_multiset_ensures();
        root@.to_multiset_ensures();
        assert forall|k: int| 0 <= k < root@.len() implies is_legal_move(game@, #[trigger] root@[k]) by {
            let x = root@[k];
            assert(root@.contains(x));
            assert(root@.to_multiset().count(x) > 0);
            assert(before.to_multiset().count(x) > 0);
            assert(before.contains(x));
        }
        assert(root@.len() == before.len()) by {
            assert(root@.to_multiset().len() == before.to_multiset().len());
        }
    }
    let r = pick_from_order(game, &root, difficulty);
    proof {
        assert(root@.to_multiset() == ordered_moves(game@).to_multiset());
        assert(pick_spec(game@, root@, difficulty) == r);
    }
    r
}

} // verus!

//! Dots & Boxes AI: gift-avoiding heuristics with a shallow lookahead for
//! Hard. Full chain-parity theory is deliberately out of scope.

use crate::dots::engine::{
    BOXES, Dots, EDGES, Side, Status, box_edges, box_edges_spec, decompose, decompose_spec,
    open_upto, opposite_of, side_idx, mark, newly_completed,
};
use crate::game_core::{first_argmax, first_max, lemma_first_max_extend, lemma_first_max_unique, Difficulty};
use crate::random::random_below;
use vstd::prelude::*;

verus! {

/// Box touching edge `e` on its upper/left side (`k == 0`) or lower/right
/// side (`k == 1`), when it exists.
pub open spec fn adj_slot(e: int, k: int) -> Option<(int, int)> {
    let (vert, row, col) = decompose_spec(e);
    if vert {
        if k == 0 {
            if col > 0 {
                Some((row, col - 1))
            } else {
                None
            }
        } else {
            if col < BOXES {
                Some((row, col))
            } else {
                None
            }
        }
    } else {
        if k == 0 {
            if row > 0 {
                Some((row - 1, col))
            } else {
                None
            }
        } else {
            if row < BOXES {
                Some((row, col))
            } else {
                None
            }
        }
    }
}

/// Claimed edges of box `b` other than `e`.
pub open spec fn claimed_except(edges: Seq<Option<Side>>, b: (int, int), e: int) -> int {
    let ids = box_edges_spec(b.0, b.1);
    (if ids[0] != e && edges[ids[0]] is Some {
        1int
    } else {
        0
    }) + (if ids[1] != e && edges[ids[1]] is Some {
        1int
    } else {
        0
    }) + (if ids[2] != e && edges[ids[2]] is Some {
        1int
    } else {
        0
    }) + (if ids[3] != e && edges[ids[3]] is Some {
        1int
    } else {
        0
    })
}

/// Every edge of box `b` other than `e` is claimed.
pub open spec fn others_claimed(edges: Seq<Option<Side>>, b: (int, int), e: int) -> bool {
    forall|q: int|
        0 <= q < 4 ==> #[trigger] box_edges_spec(b.0, b.1)[q] != e ==> edges[box_edges_spec(
            b.0,
            b.1,
        )[q]] is Some
}

/// Claiming `e` completes at least one box right now.
pub open spec fn would_complete_spec(edges: Seq<Option<Side>>, e: int) -> bool {
    ||| (adj_slot(e, 0) matches Some(b) && others_claimed(edges, b, e))
    ||| (adj_slot(e, 1) matches Some(b) && others_claimed(edges, b, e))
}

/// Claiming `e` leaves some adjacent box at three sides (a gift).
pub open spec fn gifts_box(edges: Seq<Option<Side>>, e: int) -> bool {
    ||| (adj_slot(e, 0) matches Some(b) && claimed_except(edges, b, e) == 2)
    ||| (adj_slot(e, 1) matches Some(b) && claimed_except(edges, b, e) == 2)
}

/// Edges of `s` that complete a box, in order.
pub open spec fn keep_completing(edges: Seq<Option<Side>>, s: Seq<usize>) -> Seq<usize>
    decreases s.len(),
{
    if s.len() == 0 {
        s
    } else {
        keep_completing(edges, s.drop_last()) + if would_complete_spec(edges, s.last() as int) {
            seq![s.last()]
        } else {
            Seq::empty()
        }
    }
}

/// Edges of `s` that gift no box, in order.
pub open spec fn keep_safe(edges: Seq<Option<Side>>, s: Seq<usize>) -> Seq<usize>
    decreases s.len(),
{
    if s.len() == 0 {
        s
    } else {
        keep_safe(edges, s.drop_last()) + if !gifts_box(edges, s.last() as int) {
            seq![s.last()]
        } else {
            Seq::empty()
        }
    }
}

/// Medium's pick among the open edges: the first that completes a box, else
/// the first that gifts nothing, else the first open edge.
pub open spec fn medium_choice(edges: Seq<Option<Side>>, open: Seq<usize>) -> Option<usize> {
    let free = keep_completing(edges, open);
    let safe = keep_safe(edges, open);
    if free.len() > 0 {
        Some(free[0])
    } else if safe.len() > 0 {
        Some(safe[0])
    } else if open.len() > 0 {
        Some(open[0])
    } else {
        None
    }
}

/// Tallies small enough for the evaluation arithmetic: ten times a tally,
/// plus the win bonus, stays inside an `i32`.
pub open spec fn small_scores(game: Dots) -> bool {
    game.scores_spec()[0] <= 200_000_000 && game.scores_spec()[1] <= 200_000_000
}

proof fn lemma_keep_sub(edges: Seq<Option<Side>>, s: Seq<usize>)
    ensures
        forall|i: int|
            0 <= i < keep_completing(edges, s).len() ==> s.contains(
                #[trigger] keep_completing(edges, s)[i],
            ),
        forall|i: int|
            0 <= i < keep_safe(edges, s).len() ==> s.contains(#[trigger] keep_safe(edges, s)[i]),
    decreases s.len(),
{
    if s.len() > 0 {
        let t = s.drop_last();
        lemma_keep_sub(edges, t);
        assert forall|i: int|
            0 <= i < keep_completing(edges, s).len() implies s.contains(
            #[trigger] keep_completing(edges, s)[i],
        ) by {
            if i < keep_completing(edges, t).len() {
                let x = keep_completing(edges, t)[i];
                assert(t.contains(x));
                let j = choose|j: int| 0 <= j < t.len() && t[j] == x;
                assert(s[j] == x);
            } else {
                assert(s[s.len() - 1] == s.last());
            }
        }
        assert forall|i: int| 0 <= i < keep_safe(edges, s).len() implies s.contains(
            #[trigger] keep_safe(edges, s)[i],
        ) by {
            if i < keep_safe(edges, t).len() {
                let x = keep_safe(edges, t)[i];
                assert(t.contains(x));
                let j = choose|j: int| 0 <= j < t.len() && t[j] == x;
                assert(s[j] == x);
            } else {
                assert(s[s.len() - 1] == s.last());
            }
        }
    }
}

proof fn lemma_open_upto(edges: Seq<Option<Side>>, n: int)
    requires
        0 <= n <= edges.len(),
        n <= EDGES,
    ensures
        forall|i: int|
            0 <= i < open_upto(edges, n).len() ==> #[trigger] open_upto(edges, n)[i] < n
                && edges[open_upto(edges, n)[i] as int] is None,
    decreases n,
{
    if n > 0 {
        lemma_open_upto(edges, n - 1);
        let prev = open_upto(edges, n - 1);
        let tail = if edges[n - 1] is None {
            seq![(n - 1) as usize]
        } else {
            Seq::<usize>::empty()
        };
        assert(open_upto(edges, n) == prev + tail);
    }
}

/// Picks an edge for the side to move: `None` exactly when no edge is
/// open; otherwise an open edge. Medium plays [`medium_choice`]; Hard takes
/// a completing edge first whenever one exists.
pub fn best_edge(game: &Dots, difficulty: Difficulty) -> (r: Option<usize>)
    requires
        game.wf(),
        small_scores(*game),
    ensures
        ({
            let open = open_upto(game.edges_spec(), EDGES as int);
            &&& r is None <==> open.len() == 0
            &&& r matches Some(e) ==> open.contains(e)
            &&& difficulty == Difficulty::Medium ==> r == medium_choice(game.edges_spec(), open)
            &&& difficulty == Difficulty::Hard && keep_completing(game.edges_spec(), open).len() > 0
                ==> r == Some(keep_completing(game.edges_spec(), open)[0])
            &&& difficulty == Difficulty::Hard && game.status_spec() is Ongoing && open.len() > 0
                && keep_completing(game.edges_spec(), open).len() == 0 ==> r == Some(hard_choice(*game, open))
        }),
{
    let open = game.open_edges();
    if open.len() == 0 {
        return None;
    }
    match difficulty {
        Difficulty::Easy => {
            let r = easy(game, &open);
            assert(r matches Some(e) && open_upto(game.edges_spec(), EDGES as int).contains(e));
            r
        },
        Difficulty::Medium => {
            proof {
                lemma_keep_sub(game.edges_spec(), open@);
            }
            medium(game, &open)
        },
        Difficulty::Hard => hard(game, &open),
    }
}

/// Edges that complete at least one box right now.
fn completions(game: &Dots, open: &Vec<usize>) -> (r: Vec<usize>)
    requires
        game.wf(),
        forall|i: int| 0 <= i < open@.len() ==> #[trigger] open@[i] < EDGES,
    ensures
        r@ == keep_completing(game.edges_spec(), open@),
{
    let mut out: Vec<usize> = Vec::new();
    let mut i: usize = 0;
    while i < open.len()
        invariant
            game.wf(),
            forall|i: int| 0 <= i < open@.len() ==> #[trigger] open@[i] < EDGES,
            0 <= i <= open@.len(),
            out@ == keep_completing(game.edges_spec(), open@.take(i as int)),
        decreases open@.len() - i,
    {
        let e = open[i];
        if would_complete(game, e) {
            out.push(e);
        }
        assert(open@.take(i + 1).drop_last() =~= open@.take(i as int));
        i += 1;
    }
    assert(open@.take(open@.len() as int) =~= open@);
    out
}

/// Every edge of box `(r, c)` other than `e` is claimed.
fn box_others_claimed(game: &Dots, r: usize, c: usize, e: usize) -> (b: bool)
    requires
        game.wf(),
        r < BOXES,
        c < BOXES,
    ensures
        b == others_claimed(game.edges_spec(), (r as int, c as int), e as int),
{
    let ids = box_edges(r, c);
    let mut q: usize = 0;
    while q < 4
        invariant
            game.wf(),
            0 <= q <= 4,
            r < BOXES,
            c < BOXES,
            ids@.len() == 4,
            forall|k: int| 0 <= k < 4 ==> ids@[k] == #[trigger] box_edges_spec(r as int, c as int)[k],
            forall|k: int|
                0 <= k < q ==> #[trigger] box_edges_spec(r as int, c as int)[k] != e
                    ==> game.edges_spec()[box_edges_spec(r as int, c as int)[k]] is Some,
        decreases 4 - q,
    {
        assert(ids@[q as int] == box_edges_spec(r as int, c as int)[q as int]);
        if ids[q] != e && game.claimed(ids[q]).is_none() {
            return false;
        }
        q += 1;
    }
    true
}

/// Claimed edges of box `(r, c)` other than `e`.
fn box_claimed_except(game: &Dots, r: usize, c: usize, e: usize) -> (n: usize)
    requires
        game.wf(),
        r < BOXES,
        c < BOXES,
    ensures
        n == claimed_except(game.edges_spec(), (r as int, c as int), e as int),
{
    let ids = box_edges(r, c);
    let mut n: usize = 0;
    let b0 = ids[0] != e && game.claimed(ids[0]).is_some();
    let b1 = ids[1] != e && game.claimed(ids[1]).is_some();
    let b2 = ids[2] != e && game.claimed(ids[2]).is_some();
    let b3 = ids[3] != e && game.claimed(ids[3]).is_some();
    assert(ids@[0] == box_edges_spec(r as int, c as int)[0]);
    assert(ids@[1] == box_edges_spec(r as int, c as int)[1]);
    assert(ids@[2] == box_edges_spec(r as int, c as int)[2]);
    assert(ids@[3] == box_edges_spec(r as int, c as int)[3]);
    if b0 {
        n += 1;
    }
    if b1 {
        n += 1;
    }
    if b2 {
        n += 1;
    }
    if b3 {
        n += 1;
    }
    n
}

fn would_complete(game: &Dots, e: usize) -> (b: bool)
    requires
        game.wf(),
        e < EDGES,
    ensures
        b == would_complete_spec(game.edges_spec(), e as int),
{
    let adj = adjacent_boxes(e);
    let first = match adj[0] {
        Some((r, c)) => box_others_claimed(game, r, c, e),
        None => false,
    };
    let second = match adj[1] {
        Some((r, c)) => box_others_claimed(game, r, c, e),
        None => false,
    };
    first || second
}

/// The edge brings an adjacent box to three sides (a future gift).
fn gifts(game: &Dots, e: usize) -> (b: bool)
    requires
        game.wf(),
        e < EDGES,
    ensures
        b == gifts_box(game.edges_spec(), e as int),
{
    let adj = adjacent_boxes(e);
    let first = match adj[0] {
        Some((r, c)) => box_claimed_except(game, r, c, e) == 2,
        None => false,
    };
    let second = match adj[1] {
        Some((r, c)) => box_claimed_except(game, r, c, e) == 2,
        None => false,
    };
    first || second
}

/// Up to two boxes touching an edge; None entries skipped.
fn adjacent_boxes(e: usize) -> (r: [Option<(usize, usize)>; 2])
    requires
        e < EDGES,
    ensures
        forall|k: int|
            0 <= k < 2 ==> match #[trigger] r@[k] {
                Some(b) => adj_slot(e as int, k) == Some((b.0 as int, b.1 as int)) && b.0 < BOXES
                    && b.1 < BOXES,
                None => adj_slot(e as int, k) is None,
            },
{
    let (vert, row, col) = decompose(e);
    if vert {
        let a = if col > 0 {
            Some((row, col - 1))
        } else {
            None
        };
        let b = if col < BOXES {
            Some((row, col))
        } else {
            None
        };
        [a, b]
    } else {
        let a = if row > 0 {
            Some((row - 1, col))
        } else {
            None
        };
        let b = if row < BOXES {
            Some((row, col))
        } else {
            None
        };
        [a, b]
    }
}

fn safe_open(game: &Dots, open: &Vec<usize>) -> (r: Vec<usize>)
    requires
        game.wf(),
        forall|i: int| 0 <= i < open@.len() ==> #[trigger] open@[i] < EDGES,
    ensures
        r@ == keep_safe(game.edges_spec(), open@),
{
    let mut out: Vec<usize> = Vec::new();
    let mut i: usize = 0;
    while i < open.len()
        invariant
            game.wf(),
            forall|i: int| 0 <= i < open@.len() ==> #[trigger] open@[i] < EDGES,
            0 <= i <= open@.len(),
            out@ == keep_safe(game.edges_spec(), open@.take(i as int)),
        decreases open@.len() - i,
    {
        let e = open[i];
        if !gifts(game, e) {
            out.push(e);
        }
        assert(open@.take(i + 1).drop_last() =~= open@.take(i as int));
        i += 1;
    }
    assert(open@.take(open@.len() as int) =~= open@);
    out
}

/// Safe edges 70% of the time, any open edge otherwise.
fn easy(game: &Dots, open: &Vec<usize>) -> (r: Option<usize>)
    requires
        game.wf(),
        open@ == open_upto(game.edges_spec(), EDGES as int),
        open@.len() > 0,
    ensures
        r matches Some(e) && open@.contains(e),
{
    proof {
        lemma_open_upto(game.edges_spec(), EDGES as int);
        lemma_keep_sub(game.edges_spec(), open@);
    }
    let safe = safe_open(game, open);
    if safe.len() > 0 && random_below(10) < 7 {
        let pick = random_below(safe.len());
        assert(open@.contains(safe@[pick as int]));
        return Some(safe[pick]);
    }
    let pick = random_below(open.len());
    assert(open@.contains(open@[pick as int]));
    Some(open[pick])
}

fn medium(game: &Dots, open: &Vec<usize>) -> (r: Option<usize>)
    requires
        game.wf(),
        open@ == open_upto(game.edges_spec(), EDGES as int),
    ensures
        r == medium_choice(game.edges_spec(), open@),
{
    proof {
        lemma_open_upto(game.edges_spec(), EDGES as int);
    }
    let free = completions(game, open);
    if free.len() > 0 {
        return Some(free[0]);
    }
    let safe = safe_open(game, open);
    if safe.len() > 0 {
        return Some(safe[0]);
    }
    if open.len() > 0 {
        Some(open[0])
    } else {
        None
    }
}

/// The edges Hard weighs once nothing completes a box: the safe ones, or
/// every open edge when none is safe.
pub open spec fn hard_pool(edges: Seq<Option<Side>>, open: Seq<usize>) -> Seq<usize> {
    if keep_safe(edges, open).len() == 0 {
        open
    } else {
        keep_safe(edges, open)
    }
}

/// Hard's score of each edge of `cands` for `me`: the position after it,
/// searched two plies deep, negated.
pub open spec fn hard_scores(p: DotsPos, cands: Seq<usize>, me: Side) -> Seq<int> {
    Seq::new(cands.len(), |k: int| -search_value(pos_after(p, cands[k]), 2, me))
}

/// Hard's pick in a live game where nothing completes a box: the first
/// edge of [`hard_pool`] with the best [`hard_scores`].
pub open spec fn hard_choice(game: Dots, open: Seq<usize>) -> usize {
    let pool = hard_pool(game.edges_spec(), open);
    pool[first_argmax(hard_scores(pos_of(game), pool, game.turn_spec()))]
}

/// Hard = Medium plus a depth-2 minimax among the top candidates so it
/// avoids handing over chains when alternatives exist.
fn hard(game: &Dots, open: &Vec<usize>) -> (r: Option<usize>)
    requires
        game.wf(),
        small_scores(*game),
        open@ == open_upto(game.edges_spec(), EDGES as int),
        open@.len() > 0,
    ensures
        r matches Some(e) && open@.contains(e),
        keep_completing(game.edges_spec(), open@).len() > 0 ==> r == Some(
            keep_completing(game.edges_spec(), open@)[0],
        ),
        game.status_spec() is Ongoing && keep_completing(game.edges_spec(), open@).len() == 0 ==> r == Some(
            hard_choice(*game, open@),
        ),
{
    proof {
        lemma_open_upto(game.edges_spec(), EDGES as int);
        lemma_keep_sub(game.edges_spec(), open@);
    }
    let free = completions(game, open);
    if free.len() > 0 {
        assert(open@.contains(free@[0]));
        return Some(free[0]);
    }
    let safe = safe_open(game, open);
    let candidates = if safe.len() == 0 {
        copy_vec(open)
    } else {
        safe
    };
    let me = game.turn();
    let ghost sc = hard_scores(pos_of(*game), candidates@, me);
    let mut best: Option<(usize, i32)> = None;
    let ghost mut bi: int = 0;
    let mut i: usize = 0;
    while i < candidates.len()
        invariant
            game.wf(),
            small_scores(*game),
            open@ == open_upto(game.edges_spec(), EDGES as int),
            0 <= i <= candidates@.len(),
            forall|k: int| 0 <= k < candidates@.len() ==> open@.contains(#[trigger] candidates@[k]),
            best matches Some(b) ==> open@.contains(b.0),
            me == game.turn_spec(),
            sc == hard_scores(pos_of(*game), candidates@, me),
            game.status_spec() is Ongoing ==> (i == 0 <==> best is None),
            game.status_spec() is Ongoing && i > 0 ==> 0 <= bi < i && first_max(sc.take(i as int), bi) && (
            best matches Some(b) && b.0 == candidates@[bi] && b.1 as int == sc[bi]),
        decreases candidates@.len() - i,
    {
        let e = candidates[i];
        assert(open@.contains(candidates@[i as int]));
        let mut child = game.copy();
        if child.play(e) {
            proof {
                lemma_done_len(game.edges_spec().update(e as int, Some(game.turn_spec())), game.boxes_spec(), e as int);
            }
            let score = -negamax(&child, 2, me);
            proof {
                assert(pos_of(child) == pos_after(pos_of(*game), e));
                assert(sc[i as int] == score as int);
            }
            let ghost prev = bi;
            proof {
                if i > 0 && game.status_spec() is Ongoing {
                    assert(best matches Some(b) && b.0 == candidates@[prev] && b.1 as int == sc[prev]);
                }
            }
            let replace = match best {
                None => true,
                Some((_, s)) => score > s,
            };
            if replace {
                best = Some((e, score));
                proof {
                    bi = i as int;
                }
            }
            proof {
                if game.status_spec() is Ongoing {
                    if i > 0 {
                        lemma_first_max_extend(sc, i as int, prev);
                    } else {
                        lemma_first_max_extend(sc, 0, 0);
                    }
                }
            }
        } else {
            proof {
                assert(open@.contains(e));
                lemma_open_upto(game.edges_spec(), EDGES as int);
            }
        }
        i += 1;
    }
    proof {
        if game.status_spec() is Ongoing && candidates@.len() > 0 {
            assert(sc.take(candidates@.len() as int) =~= sc);
            lemma_first_max_unique(sc, bi);
        }
    }
    match best {
        Some((e, _)) => Some(e),
        None => medium(game, open),
    }
}

fn copy_vec(v: &Vec<usize>) -> (r: Vec<usize>)
    ensures
        r@ == v@,
{
    let mut out: Vec<usize> = Vec::new();
    let mut i: usize = 0;
    while i < v.len()
        invariant
            0 <= i <= v@.len(),
            out@ == v@.take(i as int),
        decreases v@.len() - i,
    {
        out.push(v[i]);
        assert(v@.take(i + 1) =~= v@.take(i as int).push(v@[i as int]));
        i += 1;
    }
    assert(v@.take(v@.len() as int) =~= v@);
    out
}

/// One claimed edge completes at most two boxes.
proof fn lemma_done_len(
    edges: Seq<Option<Side>>,
    boxes: Seq<Option<Side>>,
    e: int,
)
    requires
        0 <= e < EDGES,
    ensures
        crate::dots::engine::newly_completed(
            edges,
            boxes,
            crate::dots::engine::adjacent_boxes(e),
        ).len() <= 2,
{
    let adj = crate::dots::engine::adjacent_boxes(e);
    assert(adj.len() <= 2);
    reveal_with_fuel(crate::dots::engine::newly_completed, 3);
}

/// What decides the value of a position: edges, box owners, tallies, the
/// side to move and the status.
pub type DotsPos = (Seq<Option<Side>>, Seq<Option<Side>>, Seq<usize>, Side, Status);

pub open spec fn pos_of(g: Dots) -> DotsPos {
    (g.edges_spec(), g.boxes_spec(), g.scores_spec(), g.turn_spec(), g.status_spec())
}

/// The position after the side to move draws edge `e` in `p`, as
/// [`Dots::claimed_edge`] describes it.
pub open spec fn pos_after(p: DotsPos, e: usize) -> DotsPos {
    let (edges0, boxes0, scores0, mover, _) = p;
    let edges = edges0.update(e as int, Some(mover));
    let done = newly_completed(edges, boxes0, crate::dots::engine::adjacent_boxes(e as int));
    let scores = scores0.update(side_idx(mover), (scores0[side_idx(mover)] + done.len()) as usize);
    let boxes = mark(boxes0, done, mover);
    if open_upto(edges, EDGES as int).len() == 0 {
        (edges, boxes, scores, mover, if scores[0] > scores[1] {
            Status::Won(Side::White)
        } else if scores[0] < scores[1] {
            Status::Won(Side::Black)
        } else {
            Status::Draw
        })
    } else {
        (edges, boxes, scores, if done.len() == 0 {
            opposite_of(mover)
        } else {
            mover
        }, Status::Ongoing)
    }
}

/// [`leaf_value`] of a position.
pub open spec fn pos_leaf(p: DotsPos, me: Side) -> int {
    let diff = (p.2[side_idx(me)] - p.2[side_idx(opposite_of(me))]) * 10;
    match p.4 {
        Status::Won(w) => if w == me {
            diff + 10_000
        } else {
            diff - 10_000
        },
        _ => diff,
    }
}

/// Depth-limited search value of `p` for `me`: the leaf value once the game
/// is over, the depth is spent or no edge is open; otherwise the result of
/// [`scan`] over every open edge, or the leaf value when that saw no move.
pub open spec fn search_value(p: DotsPos, depth: nat, me: Side) -> int
    decreases depth, 0nat,
{
    let open = open_upto(p.0, EDGES as int);
    if !(p.4 is Ongoing) || depth == 0 || open.len() == 0 {
        pos_leaf(p, me)
    } else {
        let b = scan(p, (depth - 1) as nat, me, open.len());
        if b == i32::MIN || b == i32::MAX {
            pos_leaf(p, me)
        } else {
            b
        }
    }
}

/// Running best over the first `n` open edges of `p`: the maximum of the
/// child values when `me` moves, the minimum otherwise, and once `me` holds
/// a line worth more than 5000 the rest are not looked at.
pub open spec fn scan(p: DotsPos, depth: nat, me: Side, n: nat) -> int
    decreases depth, n,
{
    let maximize = p.3 == me;
    if n == 0 {
        if maximize {
            i32::MIN as int
        } else {
            i32::MAX as int
        }
    } else {
        let b = scan(p, depth, me, (n - 1) as nat);
        if maximize && b > 5_000 {
            b
        } else {
            let v = search_value(pos_after(p, open_upto(p.0, EDGES as int)[n - 1]), depth, me);
            if maximize {
                if v > b {
                    v
                } else {
                    b
                }
            } else {
                if v < b {
                    v
                } else {
                    b
                }
            }
        }
    }
}

/// Once `me` holds more than 5000, the scan stops changing.
proof fn lemma_scan_stuck(p: DotsPos, depth: nat, me: Side, n: nat, m: nat)
    requires
        p.3 == me,
        scan(p, depth, me, n) > 5_000,
        n <= m,
    ensures
        scan(p, depth, me, m) == scan(p, depth, me, n),
    decreases m - n,
{
    if n < m {
        lemma_scan_stuck(p, depth, me, n, (m - 1) as nat);
    }
}

fn negamax(game: &Dots, depth: u8, me: Side) -> (r: i32)
    requires
        game.wf(),
        game.scores_spec()[0] <= 200_000_002 + 2 * (2 - depth),
        game.scores_spec()[1] <= 200_000_002 + 2 * (2 - depth),
        depth <= 2,
    ensures
        r == search_value(pos_of(*game), depth as nat, me),
        !(game.status_spec() is Ongoing) || depth == 0 || open_upto(game.edges_spec(), EDGES as int).len()
            == 0 ==> r == leaf_value(*game, me),
        -2_001_000_000 <= r <= 2_001_000_000,
    decreases depth,
{
    if !game.status().is_ongoing() || depth == 0 {
        return eval(game, me);
    }
    let acting_is_me = game.turn() == me;
    let open = game.open_edges();
    if open.len() == 0 {
        return eval(game, me);
    }
    let mut best: i32 = if acting_is_me {
        i32::MIN
    } else {
        i32::MAX
    };
    let mut i: usize = 0;
    while i < open.len()
        invariant_except_break
            best == scan(pos_of(*game), (depth - 1) as nat, me, i as nat),
            !(acting_is_me && best > 5_000),
        invariant
            game.wf(),
            game.scores_spec()[0] <= 200_000_002 + 2 * (2 - depth),
            game.scores_spec()[1] <= 200_000_002 + 2 * (2 - depth),
            1 <= depth <= 2,
            0 <= i <= open@.len(),
            best == i32::MIN || best == i32::MAX || -2_001_000_000 <= best <= 2_001_000_000,
            open@ == open_upto(game.edges_spec(), EDGES as int),
            game.status_spec() is Ongoing,
            acting_is_me == (game.turn_spec() == me),
        ensures
            best == scan(pos_of(*game), (depth - 1) as nat, me, open@.len()),
        decreases open@.len() - i,
    {
        let e = open[i];
        let mut child = game.copy();
        proof {
            lemma_open_upto(game.edges_spec(), EDGES as int);
            assert(open@[i as int] == e);
        }
        if !child.play(e) {
            i += 1;
            continue;
        }
        proof {
            lemma_done_len(game.edges_spec().update(e as int, Some(game.turn_spec())), game.boxes_spec(), e as int);
        }
        let score = negamax(&child, depth - 1, me);
        proof {
            assert(pos_of(child) == pos_after(pos_of(*game), e));
        }
        best = if acting_is_me {
            if score > best {
                score
            } else {
                best
            }
        } else {
            if score < best {
                score
            } else {
                best
            }
        };
        if acting_is_me && best > 5_000 {
            proof {
                lemma_scan_stuck(pos_of(*game), (depth - 1) as nat, me, (i + 1) as nat, open@.len());
            }
            break ;  // found a forced win line; no need to keep scanning
        }
        i += 1;
    }
    if best == i32::MIN || best == i32::MAX {
        eval(game, me)
    } else {
        best
    }
}

/// Leaf value from `me`'s side: ten times the box lead, moved by 10000
/// toward the winner once the game is won.
pub open spec fn leaf_value(game: Dots, me: Side) -> int {
    let diff = (game.scores_spec()[side_idx(me)] - game.scores_spec()[side_idx(opposite_of(me))])
        * 10;
    match game.status_spec() {
        Status::Won(w) => if w == me {
            diff + 10_000
        } else {
            diff - 10_000
        },
        _ => diff,
    }
}

fn eval(game: &Dots, me: Side) -> (r: i32)
    requires
        game.wf(),
        game.scores_spec()[0] <= 200_000_010,
        game.scores_spec()[1] <= 200_000_010,
    ensures
        r == leaf_value(*game, me),
        -2_001_000_000 <= r <= 2_001_000_000,
{
    let mine = game.score(me) as i32;
    let theirs = game.score(me.opposite()) as i32;
    let diff = (mine - theirs) * 10;
    match game.status() {
        Status::Ongoing => diff,
        Status::Won(w) => {
            if w == me {
                diff + 10_000
            } else {
                diff - 10_000
            }
        },
        Status::Draw => diff,
    }
}

} // verus!

//! Battleship AI: random salvoes for Easy, hunt-and-target for Medium,
//! probability-density placement counting for Hard.

use crate::battleship::engine::{kind_len, opposite_of, remaining_spec, view_at, Battleship, CellView, ShipKind};
use crate::game_core::{last_argmax, last_max, lemma_last_max_unique, Difficulty};
use crate::random::random_below;
use vstd::prelude::*;

verus! {

/// What the side to move knows of cell `c` of the opposing waters.
pub open spec fn seen_as(game: Battleship, c: int) -> CellView {
    view_at(
        game.ships_of(opposite_of(game.turn_spec())),
        game.incoming_of(opposite_of(game.turn_spec())),
        c as usize,
    )
}

/// Most ships of its own fleet the side to move may count in its density
/// search: the largest fleet for which no cell weight (at most 900 per ship
/// and 2400 of flank bonus) can pass `u32::MAX`.
pub const MAX_SHIPS: usize = 4_772_182;

/// What the side to move knows of the opposing waters, cell by cell.
pub open spec fn seen_view(game: Battleship) -> Seq<CellView> {
    Seq::new(100, |c: int| seen_as(game, c))
}

/// The cells among `0..n` still unknown in `view`, ascending.
pub open spec fn unknown_upto(view: Seq<CellView>, n: int) -> Seq<usize>
    decreases n,
{
    if n <= 0 {
        Seq::empty()
    } else {
        unknown_upto(view, n - 1) + if view[n - 1] == CellView::Unknown {
            seq![(n - 1) as usize]
        } else {
            Seq::empty()
        }
    }
}

/// Hard's target in `game`: the unknown cell of highest
/// [`density_weight`], the last one among equals in ascending order.
pub open spec fn hard_target(game: Battleship) -> usize {
    let view = seen_view(game);
    let open = unknown_upto(view, 100);
    open[last_argmax(
        Seq::new(
            open.len(),
            |k: int| density_weight(view, remaining_spec(game.ships_of(game.turn_spec())), open[k] as int),
        ),
    )]
}

/// A cell to fire at for the side to move, never one already fired at;
/// `None` once every cell has been tried. Medium fires next to a known hit
/// while one has an unknown neighbour, and otherwise on the checkerboard
/// while an unknown cell of it is left; Hard fires at [`hard_target`].
pub fn best_shot(game: &Battleship, difficulty: Difficulty) -> (r: Option<usize>)
    requires
        game.wf(),
        game.ships_of(game.turn_spec()).len() <= MAX_SHIPS,
    ensures
        r is None <==> forall|c: int| 0 <= c < 100 ==> #[trigger] seen_as(*game, c) != CellView::Unknown,
        r matches Some(c) ==> c < 100 && seen_as(*game, c as int) == CellView::Unknown,
        difficulty == Difficulty::Medium && wounded(seen_view(*game)) ==> (r matches Some(c) && flanks_hit(
            seen_view(*game),
            c as int,
        )),
        difficulty == Difficulty::Hard ==> (r matches Some(x) ==> x == hard_target(*game)),
        difficulty == Difficulty::Medium && !wounded(seen_view(*game)) && (exists|c: int|
            0 <= c < 100 && seen_as(*game, c) == CellView::Unknown && #[trigger] even_cell(c)) ==> (r matches Some(
            x,
        ) && even_cell(x as int)),
{
    let view = game.enemy_view(game.turn());
    let mut open: Vec<usize> = Vec::new();
    let mut c: usize = 0;
    while c < 100
        invariant
            0 <= c <= 100,
            forall|k: int| 0 <= k < 100 ==> #[trigger] view@[k] == seen_as(*game, k),
            forall|k: int| 0 <= k < open@.len() ==> #[trigger] open@[k] < 100 && view@[open@[k] as int] == CellView::Unknown,
            open@.len() == 0 <==> forall|k: int| 0 <= k < c ==> #[trigger] view@[k] != CellView::Unknown,
            forall|k: int| 0 <= k < c && view@[k] == CellView::Unknown ==> #[trigger] open@.contains(k as usize),
            open@ == unknown_upto(view@, c as int),
        decreases 100 - c,
    {
        let ghost before = open@;
        if view[c] == CellView::Unknown {
            open.push(c);
            assert(open@[before.len() as int] == c);
        }
        proof {
            assert forall|k: int| 0 <= k < c + 1 && view@[k] == CellView::Unknown implies #[trigger] open@.contains(k as usize) by {
                if k < c {
                    assert(before.contains(k as usize));
                    let q = choose|q: int| 0 <= q < before.len() && before[q] == k as usize;
                    assert(open@[q] == before[q]);
                } else {
                    assert(open@[before.len() as int] == k as usize);
                }
            }
        }
        c += 1;
    }
    assert(view@ =~= seen_view(*game));
    if open.len() == 0 {
        proof {
            assert forall|k: int| 0 <= k < 100 implies #[trigger] seen_as(*game, k) != CellView::Unknown by {
                assert(view@[k] != CellView::Unknown);
            }
        }
        return None;
    }
    proof {
        if !wounded(seen_view(*game)) && (exists|c: int|
            0 <= c < 100 && seen_as(*game, c) == CellView::Unknown && #[trigger] even_cell(c)) {
            let c = choose|c: int| 0 <= c < 100 && seen_as(*game, c) == CellView::Unknown && #[trigger] even_cell(c);
            assert(open@.contains(c as usize));
            let q = choose|q: int| 0 <= q < open@.len() && open@[q] == c as usize;
            assert(even_cell(open@[q] as int));
        }
        let w = open@[0];
        assert(view@[w as int] == seen_as(*game, w as int));
    }
    match difficulty {
        Difficulty::Easy => {
            let pick = random_below(open.len());
            Some(open[pick])
        },
        Difficulty::Medium => Some(target_or_hunt(&view, &open)),
        Difficulty::Hard => Some(density(game, &view, &open)),
    }
}

/// `cell` as a one-entry list when the view there is still unknown.
pub open spec fn if_unknown(view: Seq<CellView>, cell: int, present: bool) -> Seq<usize> {
    if present && view[cell] == CellView::Unknown {
        seq![cell as usize]
    } else {
        Seq::empty()
    }
}

/// The still-unknown orthogonal neighbours of `cell`: up, down, left, right.
pub open spec fn fresh_spec(view: Seq<CellView>, cell: int) -> Seq<usize> {
    let r = cell / 10;
    let c = cell % 10;
    if_unknown(view, cell - 10, r > 0) + if_unknown(view, cell + 10, r < 9) + if_unknown(
        view,
        cell - 1,
        c > 0,
    ) + if_unknown(view, cell + 1, c < 9)
}

/// Orthogonal neighbours of `cell` that are still unknown.
#[verifier::spinoff_prover]
#[verifier::rlimit(30)]
fn fresh_neighbors(view: &[CellView; 100], cell: usize) -> (out: Vec<usize>)
    requires
        cell < 100,
    ensures
        out@ == fresh_spec(view@, cell as int),
        out@.len() <= 4,
        forall|k: int| 0 <= k < out@.len() ==> #[trigger] out@[k] < 100 && view@[out@[k] as int] == CellView::Unknown,
{
    let (r, c) = (cell / 10, cell % 10);
    let mut out: Vec<usize> = Vec::new();
    if r > 0 && view[cell - 10] == CellView::Unknown {
        out.push(cell - 10);
    }
    if r < 9 && view[cell + 10] == CellView::Unknown {
        out.push(cell + 10);
    }
    if c > 0 && view[cell - 1] == CellView::Unknown {
        out.push(cell - 1);
    }
    if c < 9 && view[cell + 1] == CellView::Unknown {
        out.push(cell + 1);
    }
    assert(out@ =~= fresh_spec(view@, cell as int));
    out
}

/// Some hit cell still has an unknown orthogonal neighbour.
pub open spec fn wounded(view: Seq<CellView>) -> bool {
    exists|c: int| 0 <= c < 100 && view[c] == CellView::Hit && #[trigger] fresh_spec(view, c).len() > 0
}

/// Cell `r` is an unknown orthogonal neighbour of a hit cell.
pub open spec fn flanks_hit(view: Seq<CellView>, r: int) -> bool {
    exists|c: int| 0 <= c < 100 && view[c] == CellView::Hit && #[trigger] fresh_spec(view, c).contains(r as usize)
}

/// Cell `c` is a dark square of the checkerboard the hunt sweeps.
pub open spec fn even_cell(c: int) -> bool {
    (c / 10 + c % 10) % 2 == 0
}

/// Finish wounded ships first; otherwise hunt on a checkerboard, which
/// finds the smallest ships fastest.
fn target_or_hunt(view: &[CellView; 100], open: &Vec<usize>) -> (r: usize)
    requires
        open@.len() > 0,
        forall|k: int| 0 <= k < open@.len() ==> #[trigger] open@[k] < 100 && view@[open@[k] as int] == CellView::Unknown,
    ensures
        r < 100,
        view@[r as int] == CellView::Unknown,
        wounded(view@) ==> flanks_hit(view@, r as int),
        !wounded(view@) && (exists|k: int| 0 <= k < open@.len() && even_cell(#[trigger] open@[k] as int))
            ==> even_cell(r as int),
{
    let mut adjacent: Vec<usize> = Vec::new();
    let mut c: usize = 0;
    while c < 100
        invariant
            0 <= c <= 100,
            adjacent@.len() <= 4 * c,
            forall|k: int| 0 <= k < adjacent@.len() ==> #[trigger] adjacent@[k] < 100 && view@[adjacent@[k] as int] == CellView::Unknown,
            forall|k: int| 0 <= k < adjacent@.len() ==> flanks_hit(view@, #[trigger] adjacent@[k] as int),
            adjacent@.len() == 0 ==> forall|c2: int|
                0 <= c2 < c && view@[c2] == CellView::Hit ==> #[trigger] fresh_spec(view@, c2).len() == 0,
        decreases 100 - c,
    {
        if view[c] == CellView::Hit {
            let fresh = fresh_neighbors(view, c);
            let ghost before = adjacent@;
            let mut k: usize = 0;
            while k < fresh.len()
                invariant
                    0 <= k <= fresh@.len(),
                    fresh@.len() <= 4,
                    adjacent@.len() <= 4 * c + k,
                    forall|q: int| 0 <= q < fresh@.len() ==> #[trigger] fresh@[q] < 100 && view@[fresh@[q] as int] == CellView::Unknown,
                    forall|q: int| 0 <= q < adjacent@.len() ==> #[trigger] adjacent@[q] < 100 && view@[adjacent@[q] as int] == CellView::Unknown,
                    fresh@ == fresh_spec(view@, c as int),
                    view@[c as int] == CellView::Hit,
                    c < 100,
                    adjacent@.len() == before.len() + k,
                    forall|q: int| 0 <= q < adjacent@.len() ==> flanks_hit(view@, #[trigger] adjacent@[q] as int),
                    before.len() == 0 ==> forall|c2: int|
                        0 <= c2 < c && view@[c2] == CellView::Hit ==> #[trigger] fresh_spec(view@, c2).len() == 0,
                decreases fresh@.len() - k,
            {
                assert(fresh_spec(view@, c as int).contains(fresh@[k as int]));
                adjacent.push(fresh[k]);
                k += 1;
            }
        }
        c += 1;
    }
    if adjacent.len() > 0 {
        let pick = random_below(adjacent.len());
        assert(flanks_hit(view@, adjacent@[pick as int] as int));
        return adjacent[pick];
    }
    assert(!wounded(view@));
    let mut parity: Vec<usize> = Vec::new();
    let mut k: usize = 0;
    while k < open.len()
        invariant
            0 <= k <= open@.len(),
            forall|q: int| 0 <= q < open@.len() ==> #[trigger] open@[q] < 100 && view@[open@[q] as int] == CellView::Unknown,
            forall|q: int| 0 <= q < parity@.len() ==> #[trigger] parity@[q] < 100 && view@[parity@[q] as int] == CellView::Unknown,
            forall|q: int| 0 <= q < parity@.len() ==> even_cell(#[trigger] parity@[q] as int),
            parity@.len() == 0 ==> forall|q: int| 0 <= q < k ==> !even_cell(#[trigger] open@[q] as int),
        decreases open@.len() - k,
    {
        let cell = open[k];
        if (cell / 10 + cell % 10) % 2 == 0 {
            parity.push(cell);
        }
        k += 1;
    }
    if parity.len() > 0 {
        let pick = random_below(parity.len());
        assert(even_cell(parity@[pick as int] as int));
        parity[pick]
    } else {
        let pick = random_below(open.len());
        open[pick]
    }
}

/// Cell `pos` along lane `lane`: a row when `horizontal`, else a column.
pub open spec fn lane_cell(horizontal: bool, lane: int, pos: int) -> int {
    if horizontal {
        lane * 10 + pos
    } else {
        pos * 10 + lane
    }
}

/// A miss or a sunk ship rules a placement out.
pub open spec fn blocks(v: CellView) -> bool {
    v == CellView::Miss || v == CellView::Sunk
}

/// The first `t` cells of the run of `len` from `start` on the lane are
/// free of misses and sunk ships.
pub open spec fn clear_upto(view: Seq<CellView>, horizontal: bool, lane: int, start: int, t: int) -> bool {
    forall|u: int| 0 <= u < t ==> !blocks(#[trigger] view[lane_cell(horizontal, lane, start + u)])
}

/// Cell `q` is among the first `t` cells of the run from `start` on the
/// lane.
pub open spec fn covered(horizontal: bool, lane: int, start: int, t: int, q: int) -> bool {
    if horizontal {
        q / 10 == lane && start <= q % 10 < start + t
    } else {
        q % 10 == lane && start <= q / 10 < start + t
    }
}

/// One for `q` when the run of `len` from `start` on the lane could hold a
/// ship and covers `q`.
pub open spec fn run_weight(view: Seq<CellView>, horizontal: bool, lane: int, start: int, len: int, q: int) -> int {
    if clear_upto(view, horizontal, lane, start, len) && covered(horizontal, lane, start, len, q) {
        1
    } else {
        0
    }
}

/// `q`'s count over the first `n` starts of runs of `len` on the lane.
pub open spec fn starts_weight(view: Seq<CellView>, horizontal: bool, lane: int, len: int, n: int, q: int) -> int
    decreases n,
{
    if n <= 0 {
        0
    } else {
        starts_weight(view, horizontal, lane, len, n - 1, q) + run_weight(view, horizontal, lane, n - 1, len, q)
    }
}

/// `q`'s count over the runs of `len` in the first `n` lanes of one
/// direction.
pub open spec fn lanes_weight(view: Seq<CellView>, horizontal: bool, len: int, n: int, q: int) -> int
    decreases n,
{
    if n <= 0 {
        0
    } else {
        lanes_weight(view, horizontal, len, n - 1, q) + starts_weight(view, horizontal, n - 1, len, 11 - len, q)
    }
}

/// `q`'s count over the first `n` remaining ships, rows then columns each.
pub open spec fn ships_weight(view: Seq<CellView>, rem: Seq<(ShipKind, usize)>, n: int, q: int) -> int
    decreases n,
{
    if n <= 0 {
        0
    } else {
        let len = kind_len(rem[n - 1].0) as int;
        ships_weight(view, rem, n - 1, q) + lanes_weight(view, true, len, 10, q) + lanes_weight(view, false, len, 10, q)
    }
}

/// Six for each of the first `k` entries of `f` equal to `q`.
pub open spec fn listed_bonus(f: Seq<usize>, k: int, q: int) -> int
    decreases k,
{
    if k <= 0 {
        0
    } else {
        listed_bonus(f, k - 1, q) + if f[k - 1] == q {
            6int
        } else {
            0
        }
    }
}

/// Six for each known hit among the first `n` cells that has `q` as an
/// unknown neighbour.
pub open spec fn flank_weight(view: Seq<CellView>, n: int, q: int) -> int
    decreases n,
{
    if n <= 0 {
        0
    } else {
        flank_weight(view, n - 1, q) + if view[n - 1] == CellView::Hit {
            listed_bonus(fresh_spec(view, n - 1), fresh_spec(view, n - 1).len() as int, q)
        } else {
            0
        }
    }
}

/// Hard's weight of cell `q`: how many placements of the remaining ships
/// could cover it, plus the flank bonus around known hits.
pub open spec fn density_weight(view: Seq<CellView>, rem: Seq<(ShipKind, usize)>, q: int) -> int {
    ships_weight(view, rem, rem.len() as int, q) + flank_weight(view, 100, q)
}

/// Count plausible placements of every surviving ship of the side to move
/// across waters not known to be empty or sunk; shoot the hottest open
/// cell (the last of equals), with a nudge toward wounded-ship flanks.
fn density(game: &Battleship, view: &[CellView; 100], open: &Vec<usize>) -> (r: usize)
    requires
        game.ships_of(game.turn_spec()).len() <= MAX_SHIPS,
        open@.len() > 0,
        forall|k: int| 0 <= k < open@.len() ==> #[trigger] open@[k] < 100 && view@[open@[k] as int] == CellView::Unknown,
    ensures
        r < 100,
        view@[r as int] == CellView::Unknown,
        r == open@[last_argmax(
            Seq::new(
                open@.len(),
                |k: int| density_weight(view@, remaining_spec(game.ships_of(game.turn_spec())), open@[k] as int),
            ),
        )],
{
    let me = game.turn();
    let remaining = game.remaining(me);
    proof {
        lemma_remaining_len(game.ships_of(game.turn_spec()));
    }
    let ghost rem = remaining@;
    let mut weights: Vec<u32> = Vec::new();
    let mut z: usize = 0;
    while z < 100
        invariant
            0 <= z <= 100,
            weights@.len() == z,
            forall|q: int| 0 <= q < z ==> #[trigger] weights@[q] == 0,
        decreases 100 - z,
    {
        weights.push(0);
        z += 1;
    }
    let mut s: usize = 0;
    while s < remaining.len()
        invariant
            0 <= s <= remaining@.len(),
            remaining@ == rem,
            remaining@.len() <= MAX_SHIPS,
            weights@.len() == 100,
            forall|q: int| 0 <= q < 100 ==> #[trigger] weights@[q] <= 900 * s,
            forall|q: int| 0 <= q < 100 ==> #[trigger] weights@[q] == ships_weight(view@, rem, s as int, q),
        decreases remaining@.len() - s,
    {
        let kind: ShipKind = remaining[s].0;
        let len = kind.len();
        // Horizontal placements, then vertical ones; each adds one to
        // every cell it covers.
        let mut h: usize = 0;
        while h < 2
            invariant
                0 <= h <= 2,
                2 <= len <= 5,
                len == kind_len(rem[s as int].0),
                s < remaining@.len(),
                remaining@ == rem,
                remaining@.len() <= MAX_SHIPS,
                weights@.len() == 100,
                forall|q: int| 0 <= q < 100 ==> #[trigger] weights@[q] <= 900 * s + 450 * h,
                forall|q: int|
                    0 <= q < 100 ==> #[trigger] weights@[q] == ships_weight(view@, rem, s as int, q) + (if h >= 1 {
                        lanes_weight(view@, true, len as int, 10, q)
                    } else {
                        0
                    }) + (if h >= 2 {
                        lanes_weight(view@, false, len as int, 10, q)
                    } else {
                        0
                    }),
            decreases 2 - h,
        {
            let horizontal = h == 0;
            let mut lane: usize = 0;
            while lane < 10
                invariant
                    0 <= lane <= 10,
                    2 <= len <= 5,
                    h < 2,
                    horizontal == (h == 0),
                    len == kind_len(rem[s as int].0),
                    s < remaining@.len(),
                    remaining@ == rem,
                    remaining@.len() <= MAX_SHIPS,
                    weights@.len() == 100,
                    forall|q: int| 0 <= q < 100 ==> #[trigger] weights@[q] <= 900 * s + 450 * h + 45 * lane,
                    forall|q: int|
                        0 <= q < 100 ==> #[trigger] weights@[q] == ships_weight(view@, rem, s as int, q) + (if h >= 1 {
                            lanes_weight(view@, true, len as int, 10, q)
                        } else {
                            0
                        }) + lanes_weight(view@, horizontal, len as int, lane as int, q),
                decreases 10 - lane,
            {
                let mut start: usize = 0;
                while start + len <= 10
                    invariant
                        0 <= start <= 11 - len,
                        2 <= len <= 5,
                        lane < 10,
                        h < 2,
                        horizontal == (h == 0),
                        len == kind_len(rem[s as int].0),
                        s < remaining@.len(),
                        remaining@ == rem,
                        remaining@.len() <= MAX_SHIPS,
                        weights@.len() == 100,
                        forall|q: int| 0 <= q < 100 ==> #[trigger] weights@[q] <= 900 * s + 450 * h + 45 * lane + 5 * start,
                        forall|q: int|
                            0 <= q < 100 ==> #[trigger] weights@[q] == ships_weight(view@, rem, s as int, q) + (if h
                                >= 1 {
                                lanes_weight(view@, true, len as int, 10, q)
                            } else {
                                0
                            }) + lanes_weight(view@, horizontal, len as int, lane as int, q) + starts_weight(
                                view@,
                                horizontal,
                                lane as int,
                                len as int,
                                start as int,
                                q,
                            ),
                    decreases 11 - len - start,
                {
                    let mut clear = true;
                    let mut t: usize = 0;
                    while t < len
                        invariant
                            0 <= t <= len,
                            2 <= len <= 5,
                            start + len <= 10,
                            lane < 10,
                            clear == clear_upto(view@, horizontal, lane as int, start as int, t as int),
                        decreases len - t,
                    {
                        let i = if horizontal {
                            lane * 10 + start + t
                        } else {
                            (start + t) * 10 + lane
                        };
                        assert(i as int == lane_cell(horizontal, lane as int, start + t));
                        if view[i] == CellView::Miss || view[i] == CellView::Sunk {
                            clear = false;
                        }
                        t += 1;
                    }
                    let ghost w0 = weights@;
                    if clear {
                        let mut t: usize = 0;
                        while t < len
                            invariant
                                0 <= t <= len,
                                2 <= len <= 5,
                                start + len <= 10,
                                lane < 10,
                                h < 2,
                                s < remaining@.len(),
                                remaining@.len() <= MAX_SHIPS,
                                weights@.len() == 100,
                                w0.len() == 100,
                                forall|q: int| 0 <= q < 100 ==> #[trigger] weights@[q] <= 900 * s + 450 * h + 45 * lane + 5 * start + t,
                                forall|q: int|
                                    0 <= q < 100 ==> #[trigger] weights@[q] == w0[q] + if covered(
                                        horizontal,
                                        lane as int,
                                        start as int,
                                        t as int,
                                        q,
                                    ) {
                                        1int
                                    } else {
                                        0
                                    },
                            decreases len - t,
                        {
                            let i = if horizontal {
                                lane * 10 + start + t
                            } else {
                                (start + t) * 10 + lane
                            };
                            proof {
                                assert forall|q: int| 0 <= q < 100 implies (q == i as int) == (covered(
                                    horizontal,
                                    lane as int,
                                    start as int,
                                    t + 1,
                                    q,
                                ) && !covered(horizontal, lane as int, start as int, t as int, q)) by {
                                    if horizontal {
                                        assert(i as int == lane * 10 + start + t);
                                    } else {
                                        assert(i as int == (start + t) * 10 + lane);
                                    }
                                }
                            }
                            weights.set(i, weights[i] + 1);
                            t += 1;
                        }
                    }
                    proof {
                        assert forall|q: int| 0 <= q < 100 implies #[trigger] weights@[q] == w0[q] + run_weight(
                            view@,
                            horizontal,
                            lane as int,
                            start as int,
                            len as int,
                            q,
                        ) by {}
                    }
                    start += 1;
                }
                lane += 1;
            }
            h += 1;
        }
        s += 1;
    }
    // Flank bonus around known hits.
    let mut c: usize = 0;
    while c < 100
        invariant
            0 <= c <= 100,
            weights@.len() == 100,
            forall|q: int| 0 <= q < 100 ==> #[trigger] weights@[q] <= 900 * remaining@.len() + 24 * c,
            remaining@.len() <= MAX_SHIPS,
            remaining@ == rem,
            forall|q: int| 0 <= q < 100 ==> #[trigger] weights@[q] == ships_weight(view@, rem, rem.len() as int, q)
                + flank_weight(view@, c as int, q),
        decreases 100 - c,
    {
        if view[c] == CellView::Hit {
            let fresh = fresh_neighbors(view, c);
            let ghost w0 = weights@;
            let mut k: usize = 0;
            while k < fresh.len()
                invariant
                    0 <= k <= fresh@.len(),
                    fresh@.len() <= 4,
                    c < 100,
                    weights@.len() == 100,
                    w0.len() == 100,
                    forall|q: int| 0 <= q < 100 ==> #[trigger] weights@[q] <= 900 * remaining@.len() + 24 * c + 6 * k,
                    forall|q: int| 0 <= q < fresh@.len() ==> #[trigger] fresh@[q] < 100,
                    remaining@.len() <= MAX_SHIPS,
                    forall|q: int| 0 <= q < 100 ==> #[trigger] weights@[q] == w0[q] + listed_bonus(fresh@, k as int, q),
                decreases fresh@.len() - k,
            {
                let n = fresh[k];
                weights.set(n, weights[n] + 6);
                k += 1;
            }
        }
        c += 1;
    }
    let ghost ws = Seq::new(open@.len(), |k: int| density_weight(view@, rem, open@[k] as int));
    let mut best = open[0];
    let ghost mut bi: int = 0;
    let mut k: usize = 1;
    while k < open.len()
        invariant
            1 <= k <= open@.len(),
            weights@.len() == 100,
            best < 100,
            view@[best as int] == CellView::Unknown,
            forall|q: int| 0 <= q < open@.len() ==> #[trigger] open@[q] < 100 && view@[open@[q] as int] == CellView::Unknown,
            forall|q: int| 0 <= q < 100 ==> #[trigger] weights@[q] == density_weight(view@, rem, q),
            ws == Seq::new(open@.len(), |k: int| density_weight(view@, rem, open@[k] as int)),
            0 <= bi < k,
            best == open@[bi],
            last_max(ws.take(k as int), bi),
        decreases open@.len() - k,
    {
        let ghost prev = bi;
        if weights[open[k]] >= weights[best] {
            best = open[k];
            proof {
                bi = k as int;
            }
        }
        proof {
            let t = ws.take(k as int + 1);
            let t0 = ws.take(k as int);
            assert(forall|m: int| 0 <= m < t.len() ==> #[trigger] t[m] == ws[m]);
            assert(forall|m: int| 0 <= m < t0.len() ==> #[trigger] t0[m] == ws[m]);
            assert(ws[k as int] == weights@[open@[k as int] as int]);
            assert(ws[prev] == weights@[open@[prev] as int]);
            assert forall|m: int| 0 <= m < t.len() implies t[m] <= t[bi] by {
                if m < k {
                    assert(t0[m] <= t0[prev]);
                }
            }
            assert forall|m: int| bi < m < t.len() implies t[m] < t[bi] by {
                if m < k {
                    assert(t0[m] < t0[prev]);
                }
            }
        }
        k += 1;
    }
    proof {
        assert(ws.take(open@.len() as int) =~= ws);
        lemma_last_max_unique(ws, bi);
    }
    best
}

proof fn lemma_remaining_len(ships: Seq<crate::battleship::engine::ShipV>)
    ensures
        crate::battleship::engine::remaining_spec(ships).len() <= ships.len(),
    decreases ships.len(),
{
    if ships.len() > 0 {
        lemma_remaining_len(ships.drop_last());
    }
}

} // verus!

//! Negamax with alpha-beta over copied boards. Windows scoring plus a
//! center-column bias; Easy adds a blunder band, Hard deepens under a node
//! budget with iterative deepening.

use crate::connect4::engine::{
    COLS, ROWS, Connect4, Side, Status, cell_index, lands_four_spec, lemma_open_columns, open_columns_upto,
    opposite_of,
};
use crate::game_core::Difficulty;
use crate::random::random_below;
use vstd::prelude::*;

verus! {

/// Mate-scale score; ply adjustments prefer faster wins.
pub const WIN: i32 = 100_000;

/// Node ceiling shared across one entire `best_move` call. Past the cap the
/// search falls back to static evals, keeping Hard interactive.
pub const NODE_BUDGET: u32 = 80_000;

/// Root column order steering alpha-beta toward tactical lines first.
pub const CENTER_ORDER: [usize; COLS] = [3, 2, 4, 1, 5, 0, 6];

/// Drop is accepted in `col` of `game`.
pub open spec fn playable(game: Connect4, col: int) -> bool {
    game.status_spec() is Ongoing && 0 <= col < COLS && game.heights()[col] < ROWS
}

/// Dropping into `col` wins at once for the side to move.
pub open spec fn wins_now(game: Connect4, col: int) -> bool {
    let h = game.heights()[col];
    let mover = game.turn_spec();
    &&& playable(game, col)
    &&& lands_four_spec(game.grid().update(cell_index(h as int, col), Some(mover)), h as int, col, mover)
}

/// Some open column wins at once for the side to move.
pub open spec fn has_win(game: Connect4) -> bool {
    exists|c: int| 0 <= c < COLS && #[trigger] wins_now(game, c)
}

fn contains(v: &[usize], x: usize) -> (b: bool)
    ensures
        b == v@.contains(x),
{
    let mut i: usize = 0;
    while i < v.len()
        invariant
            0 <= i <= v@.len(),
            forall|j: int| 0 <= j < i ==> v@[j] != x,
        decreases v@.len() - i,
    {
        if v[i] == x {
            return true;
        }
        i += 1;
    }
    false
}

/// Picks a column for the side to move: `None` when no column has room,
/// always an open column, and at Medium and Hard a winning drop whenever one
/// exists. Medium plays the depth-6 root search's pick ([`root_pick`]), Hard
/// the pick of its iterative deepening ([`deepen`]), Easy a column of its
/// blunder band ([`easy_band_spec`]).
pub fn best_move(game: &Connect4, difficulty: Difficulty) -> (r: Option<usize>)
    requires
        game.wf(),
    ensures
        ({
            let open = open_columns_upto(game.heights(), COLS as int);
            &&& open.len() == 0 ==> r is None
            &&& open.len() > 0 && game.status_spec() is Ongoing ==> r is Some
            &&& r matches Some(c) ==> open.contains(c)
            &&& !(game.status_spec() is Ongoing) && difficulty != Difficulty::Hard ==> r is None
            &&& difficulty != Difficulty::Easy && has_win(*game) ==> (r matches Some(c) && wins_now(
                *game,
                c as int,
            ))
            &&& difficulty == Difficulty::Easy ==> (r matches Some(c) ==> easy_band_spec(*game).contains(c))
            &&& difficulty == Difficulty::Medium && open.len() > 0 ==> r == root_pick(*game, 6, 0).0
            &&& difficulty == Difficulty::Hard && open.len() > 0 ==> r == deepen(*game, 1, 0, Some(open[0]))
        }),
{
    let legal = game.open_columns();
    proof {
        game.lemma_wf_len();
        lemma_open_columns(game.heights(), 7);
    }
    if legal.len() == 0 {
        proof {
            if has_win(*game) {
                let c = choose|c: int| 0 <= c < COLS && #[trigger] wins_now(*game, c);
                assert(legal@.contains(c as usize));
            }
        }
        return None;
    }
    let mut nodes: u32 = 0;
    match difficulty {
        Difficulty::Easy => easy_band(game, &legal, &mut nodes),
        Difficulty::Medium => argmax_root(game, &legal, 6, &mut nodes),
        Difficulty::Hard => {
            let mut best: Option<usize> = Some(legal[0]);
            let mut depth: u8 = 1;
            let ghost mut searched = false;
            while depth <= 9
                invariant_except_break
                    deepen(*game, 1, 0, Some(legal@[0])) == deepen(*game, depth as nat, nodes as int, best),
                invariant
                    1 <= depth <= 10,
                    depth > 1 ==> searched,
                    searched && has_win(*game) ==> (best matches Some(c) && wins_now(*game, c as int)),
                    game.wf(),
                    legal@ == open_columns_upto(game.heights(), COLS as int),
                    legal@.len() > 0,
                    nodes <= NODE_BUDGET,
                    best matches Some(c) && legal@.contains(c),
                    !(game.status_spec() is Ongoing) ==> best == Some(legal@[0]),
                ensures
                    deepen(*game, 1, 0, Some(legal@[0])) == best,
                    game.status_spec() is Ongoing ==> searched,
                    searched && has_win(*game) ==> (best matches Some(c) && wins_now(*game, c as int)),
                    best matches Some(c) && legal@.contains(c),
                    !(game.status_spec() is Ongoing) ==> best == Some(legal@[0]),
                decreases 10 - depth,
            {
                match argmax_root(game, &legal, depth, &mut nodes) {
                    Some(b) => {
                        best = Some(b);
                        proof {
                            searched = true;
                        }
                    },
                    None => break ,
                }
                if nodes > NODE_BUDGET {
                    break ;
                }
                depth += 1;
            }
            best
        },
    }
}

/// Easy's scored columns from the `k`-th of `legal` on: each playable
/// column with its depth-2 root score, the node count carried along.
pub open spec fn easy_scores(game: Connect4, legal: Seq<usize>, k: nat, nodes: int) -> Seq<(usize, int)>
    decreases legal.len() - k,
{
    if k >= legal.len() {
        Seq::empty()
    } else {
        let c = legal[k as int];
        if playable(game, c as int) {
            let (sc, n2) = root_value(game, c as int, 2, nodes);
            seq![(c, sc)] + easy_scores(game, legal, k + 1, n2)
        } else {
            easy_scores(game, legal, k + 1, nodes)
        }
    }
}

/// The highest score among the first `j` scored columns (the first one's
/// when `j` is 1).
pub open spec fn top_score(sc: Seq<(usize, int)>, j: int) -> int
    decreases j,
{
    if j <= 1 {
        sc[0].1
    } else {
        let m = top_score(sc, j - 1);
        if sc[j - 1].1 > m {
            sc[j - 1].1
        } else {
            m
        }
    }
}

/// The columns among the first `k` scored ones whose score reaches `floor`,
/// in order.
pub open spec fn easy_pool(sc: Seq<(usize, int)>, floor: int, k: int) -> Seq<usize>
    decreases k,
{
    if k <= 0 {
        Seq::empty()
    } else {
        easy_pool(sc, floor, k - 1) + if sc[k - 1].1 >= floor {
            seq![sc[k - 1].0]
        } else {
            Seq::empty()
        }
    }
}

/// The columns Easy may play in `game`: those within 15 of the best
/// depth-2 score, the open columns scored left to right.
pub open spec fn easy_band_spec(game: Connect4) -> Seq<usize> {
    let sc = easy_scores(game, open_columns_upto(game.heights(), COLS as int), 0, 0);
    easy_pool(sc, top_score(sc, sc.len() as int) - 15, sc.len() as int)
}

/// Width of Easy's blunder band, in evaluation points.
const BAND: i32 = 15;

/// Depth-2 search, then a uniform pick among columns within `BAND` points
/// of the best — weak on purpose, never illegal.
fn easy_band(game: &Connect4, legal: &Vec<usize>, nodes: &mut u32) -> (r: Option<usize>)
    requires
        game.wf(),
        legal@ == open_columns_upto(game.heights(), COLS as int),
        *old(nodes) <= NODE_BUDGET,
    ensures
        *final(nodes) <= NODE_BUDGET,
        r is Some <==> (game.status_spec() is Ongoing && legal@.len() > 0),
        r matches Some(c) ==> legal@.contains(c),
        *old(nodes) == 0 ==> (r matches Some(c) ==> easy_band_spec(*game).contains(c)),
{
    proof {
        game.lemma_wf_len();
        lemma_open_columns(game.heights(), 7);
    }
    let ghost all = easy_scores(*game, legal@, 0, *old(nodes) as int);
    let mut scored: Vec<(usize, i32)> = Vec::new();
    let mut i: usize = 0;
    while i < legal.len()
        invariant
            game.wf(),
            legal@ == open_columns_upto(game.heights(), COLS as int),
            0 <= i <= legal@.len(),
            *nodes <= NODE_BUDGET,
            forall|c: usize| #[trigger]
                legal@.contains(c) <==> (c < COLS && game.heights()[c as int] < ROWS),
            forall|k: int|
                #![trigger scored@[k]]
                0 <= k < scored@.len() ==> legal@.contains(scored@[k].0) && -WIN <= scored@[k].1
                    <= WIN,
            game.status_spec() is Ongoing ==> scored@.len() == i,
            !(game.status_spec() is Ongoing) ==> scored@.len() == 0,
            all == easy_scores(*game, legal@, 0, *old(nodes) as int),
            all == scored@.map_values(|p: (usize, i32)| (p.0, p.1 as int)) + easy_scores(
                *game,
                legal@,
                i as nat,
                *nodes as int,
            ),
        decreases legal@.len() - i,
    {
        let c = legal[i];
        assert(legal@.contains(c));
        let ghost prev = scored@;
        match root_score(game, c, 2, nodes) {
            Some(s) => scored.push((c, s)),
            None => {},
        }
        proof {
            if playable(*game, c as int) {
                assert(scored@.map_values(|p: (usize, i32)| (p.0, p.1 as int)) =~= prev.map_values(
                    |p: (usize, i32)| (p.0, p.1 as int),
                ).push((c, scored@[scored@.len() - 1].1 as int)));
            } else {
                assert(scored@ == prev);
            }
        }
        i += 1;
    }
    let ghost sc = scored@.map_values(|p: (usize, i32)| (p.0, p.1 as int));
    assert(all =~= sc);
    if scored.len() == 0 {
        return None;
    }
    let mut best: i32 = scored[0].1;
    let mut j: usize = 1;
    while j < scored.len()
        invariant
            1 <= j <= scored@.len(),
            forall|k: int| #![trigger scored@[k]] 0 <= k < scored@.len() ==> -WIN <= scored@[k].1 <= WIN,
            -WIN <= best <= WIN,
            exists|k: int| 0 <= k < j && scored@[k].1 == best,
            sc == scored@.map_values(|p: (usize, i32)| (p.0, p.1 as int)),
            sc.len() == scored@.len(),
            best as int == top_score(sc, j as int),
        decreases scored@.len() - j,
    {
        if scored[j].1 > best {
            best = scored[j].1;
        }
        j += 1;
    }
    let mut pool: Vec<usize> = Vec::new();
    let mut k: usize = 0;
    while k < scored.len()
        invariant
            0 <= k <= scored@.len(),
            -WIN <= best <= WIN,
            forall|m: int| #![trigger scored@[m]] 0 <= m < scored@.len() ==> legal@.contains(scored@[m].0),
            forall|m: int| 0 <= m < pool@.len() ==> legal@.contains(#[trigger] pool@[m]),
            (exists|m: int| 0 <= m < k && scored@[m].1 == best) ==> pool@.len() > 0,
            sc == scored@.map_values(|p: (usize, i32)| (p.0, p.1 as int)),
            sc.len() == scored@.len(),
            pool@ == easy_pool(sc, best - 15, k as int),
        decreases scored@.len() - k,
    {
        if scored[k].1 >= best - BAND {
            pool.push(scored[k].0);
        }
        k += 1;
    }
    let pick = random_below(pool.len());
    proof {
        assert(pool@.contains(pool@[pick as int]));
        if *old(nodes) == 0 {
            assert(all == easy_scores(*game, open_columns_upto(game.heights(), COLS as int), 0, 0));
            assert(best as int == top_score(sc, sc.len() as int));
        }
    }
    Some(pool[pick])
}

/// Score of dropping into `col` at the root, from the mover's side, with
/// `nodes` spent so far: the negated search of the child one ply shallower
/// in the full window, and the nodes spent after it.
pub open spec fn root_value(game: Connect4, col: int, depth: nat, nodes: int) -> (int, int) {
    let d: nat = if depth == 0 {
        0
    } else {
        (depth - 1) as nat
    };
    let (v, n) = search(after_drop(game, col), d, -i32::MAX as int, i32::MAX as int, 1, nodes);
    (-v, n)
}

/// The root loop from the `i`-th column in centre order: every playable
/// column is scored in turn, and a column replaces the best so far only
/// with a strictly higher score.
pub open spec fn root_scan(game: Connect4, depth: nat, nodes: int, i: nat, best: Option<(usize, int)>) -> (
    Option<(usize, int)>,
    int,
)
    decreases 7 - i,
{
    if i >= 7 {
        (best, nodes)
    } else {
        let col = CENTER_ORDER@[i as int];
        if playable(game, col as int) {
            let (sc, n2) = root_value(game, col as int, depth, nodes);
            let nb = match best {
                None => Some((col, sc)),
                Some((c, bs)) => if sc > bs {
                    Some((col, sc))
                } else {
                    best
                },
            };
            root_scan(game, depth, n2, i + 1, nb)
        } else {
            root_scan(game, depth, nodes, i + 1, best)
        }
    }
}

/// The column the root search at `depth` picks, with `nodes` spent before
/// it, and the nodes spent after it.
pub open spec fn root_pick(game: Connect4, depth: nat, nodes: int) -> (Option<usize>, int) {
    let (b, n) = root_scan(game, depth, nodes, 0, None);
    (
        match b {
            Some((c, _)) => Some(c),
            None => None,
        },
        n,
    )
}

/// Hard's iterative deepening from `depth` on: each completed root search
/// replaces the pick, and the deepening stops after depth 9, when a search
/// finds nothing, or once the budget is overrun.
pub open spec fn deepen(game: Connect4, depth: nat, nodes: int, best: Option<usize>) -> Option<usize>
    decreases 10 - depth,
{
    if depth > 9 {
        best
    } else {
        let (r, n2) = root_pick(game, depth, nodes);
        match r {
            None => best,
            Some(b) => if n2 > NODE_BUDGET {
                Some(b)
            } else {
                deepen(game, depth + 1, n2, Some(b))
            },
        }
    }
}

/// Score of dropping into `col` at `depth`, from the mover's perspective;
/// `None` when the drop is refused.
fn root_score(game: &Connect4, col: usize, depth: u8, nodes: &mut u32) -> (r: Option<i32>)
    requires
        game.wf(),
        depth <= 50,
        *old(nodes) <= NODE_BUDGET,
    ensures
        *final(nodes) <= NODE_BUDGET,
        r is Some <==> playable(*game, col as int),
        r matches Some(s) ==> -WIN <= s <= WIN,
        wins_now(*game, col as int) ==> r == Some((WIN - 1) as i32),
        playable(*game, col as int) && !wins_now(*game, col as int) ==> (r matches Some(s) && s <= WIN - 2),
        playable(*game, col as int) ==> (r.unwrap() as int, *final(nodes) as int) == root_value(
            *game,
            col as int,
            depth as nat,
            *old(nodes) as int,
        ),
        !playable(*game, col as int) ==> *final(nodes) == *old(nodes),
{
    let mut child = *game;
    if !child.drop(col) {
        return None;
    }
    proof {
        let c = after_drop(*game, col as int);
        assert(game.dropped(col, child) && child.wf());
        assert(game.dropped(col, c) && c.wf());
        game.lemma_dropped_unique(col, child, c);
    }
    let d = if depth == 0 {
        0
    } else {
        depth - 1
    };
    let v = negamax(&child, d, -i32::MAX, i32::MAX, 1, nodes);
    Some(-v)
}

/// The best so far of the root loop, its score taken as an integer.
pub open spec fn widened(best: Option<(usize, i32)>) -> Option<(usize, int)> {
    match best {
        Some((c, s)) => Some((c, s as int)),
        None => None,
    }
}

fn argmax_root(game: &Connect4, legal: &Vec<usize>, depth: u8, nodes: &mut u32) -> (r: Option<
    usize,
>)
    requires
        game.wf(),
        legal@ == open_columns_upto(game.heights(), COLS as int),
        *old(nodes) <= NODE_BUDGET,
        depth <= 50,
    ensures
        *final(nodes) <= NODE_BUDGET,
        r is Some <==> (game.status_spec() is Ongoing && legal@.len() > 0),
        r matches Some(c) ==> legal@.contains(c),
        has_win(*game) ==> (r matches Some(c) && wins_now(*game, c as int)),
        (r, *final(nodes) as int) == root_pick(*game, depth as nat, *old(nodes) as int),
{
    proof {
        game.lemma_wf_len();
        lemma_open_columns(game.heights(), 7);
        assert(CENTER_ORDER@ =~= seq![3usize, 2, 4, 1, 5, 0, 6]);
    }
    let mut best: Option<(usize, i32)> = None;
    let mut i: usize = 0;
    while i < COLS
        invariant
            game.wf(),
            legal@ == open_columns_upto(game.heights(), COLS as int),
            0 <= i <= COLS,
            *nodes <= NODE_BUDGET,
            depth <= 50,
            forall|c: usize| #[trigger]
                legal@.contains(c) <==> (c < COLS && game.heights()[c as int] < ROWS),
            best matches Some(b) ==> legal@.contains(b.0),
            best is Some ==> game.status_spec() is Ongoing,
            (game.status_spec() is Ongoing && exists|j: int|
                0 <= j < i && legal@.contains(#[trigger] CENTER_ORDER@[j])) ==> best is Some,
            CENTER_ORDER@ =~= seq![3usize, 2, 4, 1, 5, 0, 6],
            best matches Some(b) ==> b.1 <= WIN - 1 && (b.1 == WIN - 1 <==> wins_now(*game, b.0 as int)),
            (exists|j: int| 0 <= j < i && wins_now(*game, #[trigger] CENTER_ORDER@[j] as int)) ==> (best matches Some(b)
                && b.1 == WIN - 1),
            root_scan(*game, depth as nat, *old(nodes) as int, 0, None) == root_scan(
                *game,
                depth as nat,
                *nodes as int,
                i as nat,
                widened(best),
            ),
        decreases COLS - i,
    {
        let col = CENTER_ORDER[i];
        if contains(legal.as_slice(), col) {
            match root_score(game, col, depth, nodes) {
                Some(score) => {
                    let replace = match best {
                        None => true,
                        Some((_, s)) => score > s,
                    };
                    if replace {
                        best = Some((col, score));
                    }
                },
                None => {},
            }
        }
        i += 1;
    }
    proof {
        if has_win(*game) {
            let c = choose|c: int| 0 <= c < COLS && #[trigger] wins_now(*game, c);
            let j: int = if c == 3 {
                0
            } else if c == 2 {
                1
            } else if c == 4 {
                2
            } else if c == 1 {
                3
            } else if c == 5 {
                4
            } else if c == 0 {
                5
            } else {
                6
            };
            assert(CENTER_ORDER@[j] as int == c);
            assert(wins_now(*game, CENTER_ORDER@[j] as int));
        }
        if game.status_spec() is Ongoing && legal@.len() > 0 {
            let c = legal@[0];
            assert(legal@.contains(c));
            assert(c < 7);
            assert(CENTER_ORDER@ =~= seq![3usize, 2, 4, 1, 5, 0, 6]);
            let j: int = if c == 3 {
                0
            } else if c == 2 {
                1
            } else if c == 4 {
                2
            } else if c == 1 {
                3
            } else if c == 5 {
                4
            } else if c == 0 {
                5
            } else {
                6
            };
            assert(CENTER_ORDER@[j] == c);
        }
    }
    let r = match best {
        Some((c, _)) => Some(c),
        None => None,
    };
    proof {
        assert(root_scan(*game, depth as nat, *nodes as int, 7, widened(best)) == (widened(best), *nodes as int));
    }
    r
}

/// What a window scores for the side counting it: lone +1, pair +10,
/// triple +50.
pub open spec fn table_spec(n: int) -> int {
    if n == 1 {
        1
    } else if n == 2 {
        10
    } else if n == 3 {
        50
    } else {
        0
    }
}

/// Window direction `d`: across, up, rising and falling diagonal.
pub open spec fn dir_spec(d: int) -> (int, int) {
    if d == 0 {
        (0, 1)
    } else if d == 1 {
        (1, 0)
    } else if d == 2 {
        (1, 1)
    } else {
        (-1, 1)
    }
}

pub open spec fn on_grid(r: int, c: int) -> bool {
    0 <= r < ROWS && 0 <= c < COLS
}

/// Over the first `k` cells of the window from `(row, col)` along
/// `(dr, dc)`: whether they all lie on the grid, then the discs of `side`
/// and of the other colour among them (counted up to the first cell off the
/// grid).
pub open spec fn window_tally(
    g: Seq<Option<Side>>,
    side: Side,
    row: int,
    col: int,
    dr: int,
    dc: int,
    k: int,
) -> (bool, int, int)
    decreases k,
{
    if k <= 0 {
        (true, 0, 0)
    } else {
        let p = window_tally(g, side, row, col, dr, dc, k - 1);
        let r = row + dr * (k - 1);
        let c = col + dc * (k - 1);
        if !p.0 {
            p
        } else if !on_grid(r, c) {
            (false, p.1, p.2)
        } else {
            match g[cell_index(r, c)] {
                Some(s) => if s == side {
                    (true, p.1 + 1, p.2)
                } else {
                    (true, p.1, p.2 + 1)
                },
                None => p,
            }
        }
    }
}

pub open spec fn capped(n: int) -> int {
    if n < 3 {
        n
    } else {
        3
    }
}

/// The window from `(row, col)` in direction `d`, for `side`: nothing when
/// it leaves the grid or holds both colours, else the table value of the
/// own discs minus that of the other colour's.
pub open spec fn window_value(g: Seq<Option<Side>>, side: Side, row: int, col: int, d: int) -> int {
    let dir = dir_spec(d);
    let t = window_tally(g, side, row, col, dir.0, dir.1, 4);
    if t.0 && (t.1 == 0 || t.2 == 0) {
        table_spec(capped(t.1)) - table_spec(capped(t.2))
    } else {
        0
    }
}

pub open spec fn dirs_sum(g: Seq<Option<Side>>, side: Side, row: int, col: int, d: int) -> int
    decreases d,
{
    if d <= 0 {
        0
    } else {
        dirs_sum(g, side, row, col, d - 1) + window_value(g, side, row, col, d - 1)
    }
}

pub open spec fn cols_sum(g: Seq<Option<Side>>, side: Side, row: int, col: int) -> int
    decreases col,
{
    if col <= 0 {
        0
    } else {
        cols_sum(g, side, row, col - 1) + dirs_sum(g, side, row, col - 1, 4)
    }
}

/// All windows starting in rows `0..row`, every column and direction.
pub open spec fn rows_sum(g: Seq<Option<Side>>, side: Side, row: int) -> int
    decreases row,
{
    if row <= 0 {
        0
    } else {
        rows_sum(g, side, row - 1) + cols_sum(g, side, row - 1, COLS as int)
    }
}

/// Discs of `side` among rows `0..n` of the centre column.
pub open spec fn center_count(g: Seq<Option<Side>>, side: Side, n: int) -> int
    decreases n,
{
    if n <= 0 {
        0
    } else {
        center_count(g, side, n - 1) + if g[cell_index(n - 1, 3)] == Some(side) {
            1int
        } else {
            0
        }
    }
}

/// The static evaluation for the side to move: windows plus six per disc
/// in the centre column, own minus the opponent's.
pub open spec fn heuristic_spec(game: Connect4) -> int {
    let me = game.turn_spec();
    let them = opposite_of(me);
    let g = game.grid();
    rows_sum(g, me, ROWS as int) + 6 * center_count(g, me, ROWS as int) - (rows_sum(g, them, ROWS as int) + 6
        * center_count(g, them, ROWS as int))
}

/// Once a window has left the grid its tally no longer changes.
proof fn lemma_tally_stays(g: Seq<Option<Side>>, side: Side, row: int, col: int, dr: int, dc: int, k: int, n: int)
    requires
        0 <= k <= n,
        !window_tally(g, side, row, col, dr, dc, k).0,
    ensures
        window_tally(g, side, row, col, dr, dc, n) == window_tally(g, side, row, col, dr, dc, k),
    decreases n - k,
{
    if n > k {
        lemma_tally_stays(g, side, row, col, dr, dc, k, n - 1);
    }
}

/// The position after the side to move drops into `col`.
pub open spec fn after_drop(game: Connect4, col: int) -> Connect4 {
    choose|g: Connect4| game.dropped(col as usize, g) && g.wf()
}

/// The budgeted alpha-beta search of `game`, `depth` plies deep in the
/// window `(alpha, beta)`, with `nodes` already spent: its value for the
/// side to move and the nodes spent after it. A won position scores
/// `WIN - ply` against the loser, a draw 0; at depth 0 or once the budget
/// is spent the heuristic decides; otherwise [`search_scan`] runs over the
/// columns in centre order.
pub open spec fn search(game: Connect4, depth: nat, alpha: int, beta: int, ply: int, nodes: int) -> (int, int)
    decreases depth, 8nat,
{
    match game.status_spec() {
        Status::Won(w) => (if w == game.turn_spec() {
            WIN - ply
        } else {
            -(WIN - ply)
        }, nodes),
        Status::Draw => (0, nodes),
        Status::Ongoing => if depth == 0 || nodes >= NODE_BUDGET {
            (heuristic_spec(game), nodes)
        } else {
            search_scan(game, depth, alpha, beta, ply, nodes, 0, -i32::MAX as int)
        },
    }
}

/// The column loop of [`search`] from the `i`-th column in centre order,
/// with the running `alpha` and `best`: the budget is checked before each
/// column, a full column is skipped, a child costs one node and is searched
/// in the negated window, and a cut-off ends the loop; no legal column at
/// all scores 0.
pub open spec fn search_scan(
    game: Connect4,
    depth: nat,
    alpha: int,
    beta: int,
    ply: int,
    nodes: int,
    i: nat,
    best: int,
) -> (int, int)
    decreases depth, 7 - i,
{
    if i >= 7 || depth == 0 {
        (if best == -i32::MAX {
            0
        } else {
            best
        }, nodes)
    } else if nodes >= NODE_BUDGET {
        (heuristic_spec(game), nodes)
    } else {
        let col = CENTER_ORDER@[i as int] as int;
        if !playable(game, col) {
            search_scan(game, depth, alpha, beta, ply, nodes, i + 1, best)
        } else {
            let (v, n2) = search(after_drop(game, col), (depth - 1) as nat, -beta, -alpha, ply + 1, nodes + 1);
            let score = -v;
            let best2 = if score > best {
                score
            } else {
                best
            };
            let alpha2 = if score > alpha {
                score
            } else {
                alpha
            };
            if alpha2 >= beta {
                (best2, n2)
            } else {
                search_scan(game, depth, alpha2, beta, ply, n2, i + 1, best2)
            }
        }
    }
}

fn negamax(game: &Connect4, depth: u8, alpha: i32, beta: i32, ply: u32, nodes: &mut u32) -> (r: i32)
    requires
        game.wf(),
        *old(nodes) <= NODE_BUDGET,
        1 <= ply,
        ply + depth <= 100,
        -i32::MAX <= alpha,
        -i32::MAX <= beta,
    ensures
        *final(nodes) <= NODE_BUDGET,
        *final(nodes) >= *old(nodes),
        -WIN <= r <= WIN,
        game.status_spec() matches Status::Won(w) ==> r == (if w == game.turn_spec() {
            WIN - ply
        } else {
            -(WIN - ply)
        }),
        game.status_spec() is Draw ==> r == 0,
        game.status_spec() is Ongoing && (depth == 0 || *old(nodes) >= NODE_BUDGET) ==> r == heuristic_spec(
            *game,
        ),
        game.status_spec() is Ongoing ==> -(WIN - ply - 1) <= r <= WIN - ply - 1,
        (r as int, *final(nodes) as int) == search(*game, depth as nat, alpha as int, beta as int, ply as int, *old(nodes) as int),
    decreases depth,
{
    // Terminal from the previous drop lands here: winner made the last move,
    // so the side to move is either losing or the game drew.
    match game.status() {
        Status::Won(w) => {
            return if w == game.turn() {
                WIN - ply as i32
            } else {
                -(WIN - ply as i32)
            };
        },
        Status::Draw => return 0,
        Status::Ongoing => {},
    }
    if depth == 0 {
        return heuristic(game);
    }
    let ghost goal = search(*game, depth as nat, alpha as int, beta as int, ply as int, *old(nodes) as int);
    let mut window_lo = alpha;
    let mut best: i32 = -i32::MAX;
    if *nodes >= NODE_BUDGET {
        return heuristic(game);
    }
    proof {
        assert(CENTER_ORDER@ =~= seq![3usize, 2, 4, 1, 5, 0, 6]);
    }
    let mut i: usize = 0;
    while i < COLS
        invariant_except_break
            goal == search_scan(*game, depth as nat, window_lo as int, beta as int, ply as int, *nodes as int, i as nat, best as int),
        invariant
            CENTER_ORDER@ =~= seq![3usize, 2, 4, 1, 5, 0, 6],
            goal == search(*game, depth as nat, alpha as int, beta as int, ply as int, *old(nodes) as int),
            game.wf(),
            game.status_spec() is Ongoing,
            0 <= i <= COLS,
            *nodes <= NODE_BUDGET,
            *nodes >= *old(nodes),
            *old(nodes) < NODE_BUDGET,
            1 <= ply,
            ply + depth <= 100,
            depth >= 1,
            -i32::MAX <= window_lo,
            -i32::MAX <= beta,
            best == -i32::MAX || -(WIN - ply - 1) <= best <= WIN - ply - 1,
        ensures
            goal == (if best == -i32::MAX {
                0
            } else {
                best as int
            }, *nodes as int),
        decreases COLS - i,
    {
        // Budget guard inside the tree: past the cap we fall back to the
        // heuristic so Hard stays interactive.
        if *nodes >= NODE_BUDGET {
            return heuristic(game);
        }
        let col = CENTER_ORDER[i];
        let mut child = *game;
        if !child.drop(col) {
            i += 1;
            continue;
        }
        proof {
            let c = after_drop(*game, col as int);
            assert(game.dropped(col, child) && child.wf());
            assert(game.dropped(col, c) && c.wf());
            game.lemma_dropped_unique(col, child, c);
        }
        *nodes = *nodes + 1;
        let score = -negamax(&child, depth - 1, -beta, -window_lo, ply + 1, nodes);
        if score > best {
            best = score;
        }
        if score > window_lo {
            window_lo = score;
        }
        if window_lo >= beta {
            break ;
        }
        i += 1;
    }
    if best == -i32::MAX {
        // No legal column: board full without a win already reported.
        return 0;
    }
    best
}

/// Bound on the absolute value of [`window_score`].
const WINDOW_BOUND: i32 = 8400;

/// Static eval from the side-to-move's perspective.
fn heuristic(game: &Connect4) -> (r: i32)
    requires
        game.wf(),
    ensures
        r == heuristic_spec(*game),
        -20_000 <= r <= 20_000,
{
    let me = game.turn();
    let them = me.opposite();
    window_score(game, me) + center_bonus(game, me) - (window_score(game, them) + center_bonus(
        game,
        them,
    ))
}

/// Score of one window for `side`: lone +1, pair +10, triple +50, minus the
/// same for the other colour; windows holding both colours count nothing.
fn table(n: usize) -> (r: i32)
    ensures
        r == table_spec(n as int),
        0 <= r <= 50,
{
    if n == 0 {
        0
    } else if n == 1 {
        1
    } else if n == 2 {
        10
    } else if n == 3 {
        50
    } else {
        0
    }
}

/// Sum over all 4-windows: lone +1, pair +10, triple +50 for `side`;
/// windows holding both colors count nothing.
fn window_score(game: &Connect4, side: Side) -> (r: i32)
    ensures
        r == rows_sum(game.grid(), side, ROWS as int),
        -WINDOW_BOUND <= r <= WINDOW_BOUND,
{
    let ghost g = game.grid();
    let mut total: i32 = 0;
    let mut row: usize = 0;
    while row < ROWS
        invariant
            0 <= row <= ROWS,
            g == game.grid(),
            total == rows_sum(g, side, row as int),
            -200 * (row * COLS) <= total <= 200 * (row * COLS),
        decreases ROWS - row,
    {
        let mut col: usize = 0;
        while col < COLS
            invariant
                0 <= row < ROWS,
                0 <= col <= COLS,
                g == game.grid(),
                total == rows_sum(g, side, row as int) + cols_sum(g, side, row as int, col as int),
                -200 * (row * COLS + col) <= total <= 200 * (row * COLS + col),
            decreases COLS - col,
        {
            let mut d: usize = 0;
            while d < 4
                invariant
                    0 <= row < ROWS,
                    0 <= col < COLS,
                    0 <= d <= 4,
                    g == game.grid(),
                    total == rows_sum(g, side, row as int) + cols_sum(g, side, row as int, col as int) + dirs_sum(
                        g,
                        side,
                        row as int,
                        col as int,
                        d as int,
                    ),
                    -200 * (row * COLS + col) - 50 * d <= total <= 200 * (row * COLS + col) + 50
                        * d,
                decreases 4 - d,
            {
                let (dr, dc) = window_dir(d);
                let mut mine: usize = 0;
                let mut theirs: usize = 0;
                let mut valid = true;
                let mut step: isize = 0;
                while step < 4
                    invariant_except_break
                        valid,
                        (true, mine as int, theirs as int) == window_tally(
                            g,
                            side,
                            row as int,
                            col as int,
                            dr as int,
                            dc as int,
                            step as int,
                        ),
                    invariant
                        0 <= step <= 4,
                        g == game.grid(),
                        (dr as int, dc as int) == dir_spec(d as int),
                        mine + theirs <= step,
                        -1 <= dr <= 1,
                        -1 <= dc <= 1,
                        0 <= row < ROWS,
                        0 <= col < COLS,
                    ensures
                        window_tally(g, side, row as int, col as int, dr as int, dc as int, 4) == (
                            valid,
                            mine as int,
                            theirs as int,
                        ),
                        mine + theirs <= 4,
                    decreases 4 - step,
                {
                    assert(-4 <= dr * step <= 4 && -4 <= dc * step <= 4) by (nonlinear_arith)
                        requires
                            -1 <= dr <= 1,
                            -1 <= dc <= 1,
                            0 <= step <= 4,
                    ;
                    let r = row as isize + dr * step;
                    let c = col as isize + dc * step;
                    if !in_bounds(r, c) {
                        valid = false;
                        proof {
                            assert(window_tally(g, side, row as int, col as int, dr as int, dc as int, step + 1) == (
                                false,
                                mine as int,
                                theirs as int,
                            ));
                            lemma_tally_stays(g, side, row as int, col as int, dr as int, dc as int, step + 1, 4);
                        }
                        break ;
                    }
                    match game.cell(r as usize, c as usize) {
                        Some(s) => {
                            if s == side {
                                mine += 1;
                            } else {
                                theirs += 1;
                            }
                        },
                        None => {},
                    }
                    step += 1;
                }
                if valid && (mine == 0 || theirs == 0) {
                    let m = if mine < 3 {
                        mine
                    } else {
                        3
                    };
                    let t = if theirs < 3 {
                        theirs
                    } else {
                        3
                    };
                    total = total + table(m) - table(t);
                }
                d += 1;
            }
            col += 1;
        }
        row += 1;
    }
    total
}

/// The four window directions: across, up, rising and falling diagonal.
fn window_dir(d: usize) -> (r: (isize, isize))
    ensures
        (r.0 as int, r.1 as int) == dir_spec(d as int),
        -1 <= r.0 <= 1,
        -1 <= r.1 <= 1,
{
    if d == 0 {
        (0, 1)
    } else if d == 1 {
        (1, 0)
    } else if d == 2 {
        (1, 1)
    } else {
        (-1, 1)
    }
}

fn center_bonus(game: &Connect4, side: Side) -> (r: i32)
    ensures
        r == 6 * center_count(game.grid(), side, ROWS as int),
        0 <= r <= 36,
{
    let mut n: i32 = 0;
    let mut r: usize = 0;
    while r < ROWS
        invariant
            0 <= r <= ROWS,
            n == center_count(game.grid(), side, r as int),
            0 <= n <= r,
        decreases ROWS - r,
    {
        if game.cell(r, 3) == Some(side) {
            n += 1;
        }
        r += 1;
    }
    n * 6
}

fn in_bounds(r: isize, c: isize) -> (b: bool)
    ensures
        b == (0 <= r < ROWS && 0 <= c < COLS),
{
    r >= 0 && r < ROWS as isize && c >= 0 && c < COLS as isize
}

} // verus!

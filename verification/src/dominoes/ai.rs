//! Dominoes AI: random for Easy, heaviest-shed for Medium, and a
//! flexibility-aware heuristic for Hard (shed pips while keeping suits that
//! stay playable).

use crate::dominoes::engine::{line_after, tile_has, Dominoes, Tile};
use crate::game_core::{last_argmax, last_max, lemma_last_max_unique, Difficulty};
use crate::random::random_below;
use vstd::prelude::*;

verus! {

/// Medium's keys of the legal moves: the pips of each tile.
pub open spec fn pip_keys(game: Dominoes) -> Seq<int> {
    let hand = game.hand_of(game.turn_spec());
    Seq::new(
        game.legal_spec().len(),
        |i: int| hand[game.legal_spec()[i].0 as int].a + hand[game.legal_spec()[i].0 as int].b,
    )
}

/// Hard's keys of the legal moves: [`hard_value`] of each tile.
pub open spec fn hard_keys(game: Dominoes) -> Seq<int> {
    Seq::new(game.legal_spec().len(), |i: int| hard_value(game, game.legal_spec()[i].0 as int))
}

/// A hand index for the side to move, or `None` when it has no legal tile.
/// Medium lays the last of the heaviest legal tiles; Hard the last legal
/// tile of best [`hard_value`].
pub fn best_move(game: &Dominoes, difficulty: Difficulty) -> (r: Option<usize>)
    requires
        game.wf(),
    ensures
        r is None <==> game.legal_spec().len() == 0,
        r matches Some(i) ==> game.playable(i as int),
        difficulty == Difficulty::Medium && game.legal_spec().len() > 0 ==> r == Some(
            game.legal_spec()[last_argmax(pip_keys(*game))].0,
        ),
        difficulty == Difficulty::Hard && game.legal_spec().len() > 0 ==> r == Some(
            game.legal_spec()[last_argmax(hard_keys(*game))].0,
        ),
{
    let legal = game.legal_moves();
    if legal.len() == 0 {
        return None;
    }
    let hand_len = game.hand(game.turn()).len();
    proof {
        game.lemma_legal_playable();
    }
    match difficulty {
        Difficulty::Easy => {
            let pick = random_below(legal.len());
            Some(legal[pick].0)
        },
        Difficulty::Medium => {
            let hand = game.hand(game.turn());
            let ghost keys = pip_keys(*game);
            let mut best: usize = 0;
            let mut best_key: u8 = 0;
            let mut k: usize = 0;
            while k < legal.len()
                invariant
                    keys == pip_keys(*game),
                    k > 0 ==> best < k && best_key == keys[best as int],
                    forall|j: int| 0 <= j < k ==> keys[j] <= keys[best as int],
                    forall|j: int| best < j < k ==> keys[j] < keys[best as int],
                    0 <= k <= legal@.len(),
                    legal@ == game.legal_spec(),
                    hand@ == game.hand_of(game.turn_spec()),
                    best < legal@.len(),
                    forall|j: int| 0 <= j < legal@.len() ==> (#[trigger] legal@[j]).0 < hand@.len(),
                    crate::dominoes::engine::tiles_ok(hand@),
                decreases legal@.len() - k,
            {
                // The last of the heaviest tiles wins.
                let key = hand[legal[k].0].pips();
                assert(key == keys[k as int]);
                if k == 0 || key >= best_key {
                    best = k;
                    best_key = key;
                }
                k += 1;
            }
            proof {
                assert(last_max(keys, best as int));
                lemma_last_max_unique(keys, best as int);
            }
            Some(legal[best].0)
        },
        Difficulty::Hard => {
            let ghost keys = hard_keys(*game);
            let mut best: usize = 0;
            let mut best_key: i32 = 0;
            let mut k: usize = 0;
            while k < legal.len()
                invariant
                    keys == hard_keys(*game),
                    k > 0 ==> best < k && best_key == keys[best as int],
                    forall|j: int| 0 <= j < k ==> keys[j] <= keys[best as int],
                    forall|j: int| best < j < k ==> keys[j] < keys[best as int],
                    0 <= k <= legal@.len(),
                    legal@ == game.legal_spec(),
                    best < legal@.len(),
                    forall|j: int| 0 <= j < legal@.len() ==> game.playable((#[trigger] legal@[j]).0 as int),
                    game.wf(),
                decreases legal@.len() - k,
            {
                let key = hard_score(game, legal[k].0);
                assert(key == keys[k as int]);
                if k == 0 || key >= best_key {
                    best = k;
                    best_key = key;
                }
                k += 1;
            }
            proof {
                assert(last_max(keys, best as int));
                lemma_last_max_unique(keys, best as int);
            }
            Some(legal[best].0)
        },
    }
}

/// Tiles among the first `n` of `hand` that show `v`.
pub open spec fn answer_count(hand: Seq<Tile>, v: u8, n: int) -> int
    decreases n,
{
    if n <= 0 {
        0
    } else {
        answer_count(hand, v, n - 1) + if tile_has(hand[n - 1], v) {
            1int
        } else {
            0int
        }
    }
}

/// Tiles of `hand` that show `v`, capped at four.
pub open spec fn answers_spec(hand: Seq<Tile>, v: u8) -> int {
    let n = answer_count(hand, v, hand.len() as int);
    if n > 4 {
        4
    } else {
        n
    }
}

/// Hard's value of laying hand tile `idx`: twice its pips, 3 more for a
/// double, and for each end of the resulting line the kept tiles that
/// could answer it.
pub open spec fn hard_value(game: Dominoes, idx: int) -> int {
    let hand = game.hand_of(game.turn_spec());
    let t = hand[idx];
    let line = game.line_spec();
    let fits_right = line.len() == 0 || tile_has(t, line.last());
    let after = line_after(line, t, !fits_right);
    let rest = hand.remove(idx);
    (t.a + t.b) * 2 + (if t.a == t.b {
        3int
    } else {
        0int
    }) + answers_spec(rest, after[0]) + answers_spec(rest, after.last())
}

/// Pips shed now, plus a bonus for keeping the remaining hand diverse
/// against the new end values, plus a small nudge for dumping doubles.
fn hard_score(game: &Dominoes, idx: usize) -> (r: i32)
    requires
        game.wf(),
        game.playable(idx as int),
    ensures
        r == hard_value(*game, idx as int),
{
    let mut child = game.copy();
    if !child.play(idx) {
        return i32::MIN;
    }
    let mover = game.turn();
    let tile: Tile = game.hand(mover)[idx];
    let mut score: i32 = tile.pips() as i32 * 2;
    if tile.a == tile.b {
        score = score + 3;
    }
    // End flexibility: for each open end, count how many distinct tiles in
    // the kept hand could still answer it next turn.
    let (l, r) = child.ends();
    match (l, r) {
        (Some(l), Some(r)) => {
            let hand = child.hand(mover);
            score + answers(hand, l) + answers(hand, r)
        },
        _ => score,
    }
}

/// How many tiles of `hand` show `v`, capped at four.
fn answers(hand: &[Tile], v: u8) -> (n: i32)
    ensures
        n == answers_spec(hand@, v),
        0 <= n <= 4,
{
    let mut count: usize = 0;
    let mut i: usize = 0;
    while i < hand.len()
        invariant
            0 <= i <= hand@.len(),
            count <= i,
            count == answer_count(hand@, v, i as int),
        decreases hand@.len() - i,
    {
        if hand[i].has(v) {
            count += 1;
        }
        i += 1;
    }
    if count > 4 {
        4
    } else {
        count as i32
    }
}

} // verus!

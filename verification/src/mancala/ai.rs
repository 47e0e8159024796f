//! Mancala AI: random-with-instinct for Easy, greedy sowing for Medium,
//! shallow minimax with extra-turn recursion for Hard.

use crate::game_core::{
    first_argmax, first_max, last_argmax, last_max, lemma_first_max_unique, lemma_last_max_unique,
    Difficulty,
};
use crate::mancala::engine::{
    Mancala, Side, Status, STORES, first_pit, lemma_sowed_unique, nonempty_pits, opposite_of, own_pit,
    store_index,
};
use crate::random::random_below;
use vstd::prelude::*;

verus! {

/// Pits the side to move may sow from.
pub open spec fn legal_moves(game: Mancala) -> Seq<usize> {
    if game.status_spec() is Ongoing {
        nonempty_pits(game.pits_spec(), first_pit(game.turn_spec()), 6)
    } else {
        Seq::empty()
    }
}

/// Medium's key for sowing `p`: [`greedy_value`] of the position it leads to.
pub open spec fn greedy_key(game: Mancala, p: usize) -> int {
    greedy_value(game, after_sowing(game, p))
}

/// Medium's keys of the legal pits, in order.
pub open spec fn greedy_keys(game: Mancala) -> Seq<int> {
    Seq::new(legal_moves(game).len(), |i: int| greedy_key(game, legal_moves(game)[i]))
}

/// Medium's pick: the last legal pit with the largest [`greedy_key`].
pub open spec fn greedy_choice(game: Mancala) -> usize {
    legal_moves(game)[last_argmax(greedy_keys(game))]
}

/// Hard's value of sowing `p`: the depth-2 minimax value of the result,
/// seen from the mover's side.
pub open spec fn search_key(game: Mancala, p: usize) -> int {
    -minimax_value(after_sowing(game, p), 2, game.turn_spec())
}

/// Hard's values of the legal pits, in order.
pub open spec fn search_keys(game: Mancala) -> Seq<int> {
    Seq::new(legal_moves(game).len(), |i: int| search_key(game, legal_moves(game)[i]))
}

/// Hard's pick: the first legal pit with the largest [`search_key`].
pub open spec fn search_choice(game: Mancala) -> usize {
    legal_moves(game)[first_argmax(search_keys(game))]
}

proof fn lemma_nonempty_pits(pits: Seq<u8>, first: int, n: int)
    requires
        first == 0 || first == 7,
        0 <= n <= 6,
        pits.len() == STORES,
    ensures
        forall|i: int|
            0 <= i < nonempty_pits(pits, first, n).len() ==> first <= #[trigger] nonempty_pits(
                pits,
                first,
                n,
            )[i] < first + n && pits[nonempty_pits(pits, first, n)[i] as int] > 0,
    decreases n,
{
    if n > 0 {
        lemma_nonempty_pits(pits, first, n - 1);
        let prev = nonempty_pits(pits, first, n - 1);
        let tail = if pits[first + n - 1] > 0 {
            seq![(first + n - 1) as usize]
        } else {
            Seq::<usize>::empty()
        };
        assert(nonempty_pits(pits, first, n) == prev + tail);
    }
}

/// Every legal move is a sowable pit of the side to move.
proof fn lemma_legal_moves(game: Mancala)
    requires
        game.wf(),
    ensures
        forall|i: int|
            0 <= i < legal_moves(game).len() ==> {
                let p = #[trigger] legal_moves(game)[i];
                &&& game.status_spec() is Ongoing
                &&& own_pit(game.turn_spec(), p as int)
                &&& game.pits_spec()[p as int] > 0
            },
{
    if game.status_spec() is Ongoing {
        let first = first_pit(game.turn_spec());
        lemma_nonempty_pits(game.pits_spec(), first, 6);
    }
}

/// Picks a pit for the side to move: `None` exactly when no move is legal,
/// and otherwise one of the legal pits.
pub fn best_move(game: &Mancala, difficulty: Difficulty) -> (r: Option<usize>)
    requires
        game.wf(),
    ensures
        r is None <==> legal_moves(*game).len() == 0,
        r matches Some(p) ==> legal_moves(*game).contains(p),
        difficulty == Difficulty::Medium && legal_moves(*game).len() > 0 ==> r == Some(
            greedy_choice(*game),
        ),
        difficulty == Difficulty::Hard && legal_moves(*game).len() > 0 ==> r == Some(
            search_choice(*game),
        ),
{
    let legal = game.legal_pits();
    if legal.len() == 0 {
        return None;
    }
    proof {
        lemma_legal_moves(*game);
    }
    match difficulty {
        Difficulty::Easy => easy(game, &legal),
        Difficulty::Medium => greedy(game, &legal),
        Difficulty::Hard => search_root(game, &legal),
    }
}

/// Random, but takes a visible free extra turn half the time.
fn easy(game: &Mancala, legal: &Vec<usize>) -> (r: Option<usize>)
    requires
        game.wf(),
        legal@ == legal_moves(*game),
        legal@.len() > 0,
    ensures
        r matches Some(p) && legal@.contains(p),
{
    let store = side_store_for_landing(game.turn());
    let mut extra: Vec<usize> = Vec::new();
    let mut i: usize = 0;
    while i < legal.len()
        invariant
            0 <= i <= legal@.len(),
            forall|k: int| 0 <= k < extra@.len() ==> legal@.contains(#[trigger] extra@[k]),
        decreases legal@.len() - i,
    {
        let p = legal[i];
        assert(legal@.contains(p));
        let seeds = game.pit(p) as usize;
        if p < STORES && (p + seeds) % STORES == store {
            extra.push(p);
        }
        i += 1;
    }
    if extra.len() > 0 && random_below(2) == 0 {
        let pick = random_below(extra.len());
        return Some(extra[pick]);
    }
    let pick = random_below(legal.len());
    assert(legal@.contains(legal@[pick as int]));
    Some(legal[pick])
}

/// Landing on your own store index accounting for the skip handled by sow.
fn side_store_for_landing(side: Side) -> (r: usize)
    ensures
        r == store_index(side),
{
    side.store()
}

/// `c` is the position after the side to move sows `p`, or the position
/// unchanged when `p` is not a legal sowing.
pub open spec fn sow_result(game: Mancala, p: usize, c: Mancala) -> bool {
    if game.status_spec() is Ongoing && own_pit(game.turn_spec(), p as int)
        && game.pits_spec()[p as int] > 0 {
        game.sowed(p, c)
    } else {
        c == game
    }
}

/// Seeds captured by the last sowing of `c`, capped at 255.
pub open spec fn capture_credit(c: Mancala) -> int {
    match c.captured_last_spec() {
        Some((_, n)) => if n > 255 {
            255
        } else {
            n as int
        },
        None => 0,
    }
}

/// Greedy value of moving from `game` to `c`: the mover's store gain,
/// twice the seeds captured, and 8 more when the mover keeps the turn.
pub open spec fn greedy_value(game: Mancala, c: Mancala) -> int {
    let me = game.turn_spec();
    (c.pits_spec()[store_index(me)] - game.pits_spec()[store_index(me)]) + capture_credit(c) * 2
        + if c.turn_spec() == me {
        8int
    } else {
        0int
    }
}

/// One-ply value of sowing `p`: store gain, twice the seeds captured, and a
/// bonus of 8 when the mover keeps the turn.
fn greedy_score(game: &Mancala, p: usize) -> (r: i32)
    requires
        game.wf(),
    ensures
        exists|c: Mancala| #[trigger] sow_result(*game, p, c) && r == greedy_value(*game, c),
        game.status_spec() is Ongoing && own_pit(game.turn_spec(), p as int) && game.pits_spec()[p as int]
            > 0 ==> r == greedy_key(*game, p),
        -300 <= r <= 1000,
{
    let mut child = *game;
    let me = game.turn();
    let before = child.store_of(me);
    let _ = child.sow(p);
    let after = child.store_of(me);
    let captured: usize = match child.captured_last() {
        Some((_, n)) => n,
        None => 0,
    };
    let cap: i32 = if captured > 255 {
        255
    } else {
        captured as i32
    };
    let r = (after as i32 - before as i32) + cap * 2 + if child.turn() == me {
        8
    } else {
        0
    };
    assert(sow_result(*game, p, child));
    proof {
        if game.status_spec() is Ongoing && own_pit(game.turn_spec(), p as int) && game.pits_spec()[p as int] > 0 {
            let c = after_sowing(*game, p);
            assert(game.sowed(p, c) && c.wf());
            lemma_sowed_unique(*game, p, child, c);
        }
    }
    r
}

/// Greedy one-ply: store delta + captures*2 + extra-turn bonus; the last of
/// equally scored pits wins.
fn greedy(game: &Mancala, legal: &Vec<usize>) -> (r: Option<usize>)
    requires
        game.wf(),
        legal@ == legal_moves(*game),
        legal@.len() > 0,
    ensures
        r matches Some(p) && legal@.contains(p),
        r == Some(greedy_choice(*game)),
{
    proof {
        lemma_legal_moves(*game);
    }
    let ghost keys = greedy_keys(*game);
    let mut best = legal[0];
    let mut best_score = greedy_score(game, legal[0]);
    let mut b: usize = 0;
    assert(legal@.contains(legal@[0]));
    let mut i: usize = 1;
    while i < legal.len()
        invariant
            game.wf(),
            legal@ == legal_moves(*game),
            keys == greedy_keys(*game),
            forall|k: int|
                0 <= k < legal_moves(*game).len() ==> {
                    let p = #[trigger] legal_moves(*game)[k];
                    &&& game.status_spec() is Ongoing
                    &&& own_pit(game.turn_spec(), p as int)
                    &&& game.pits_spec()[p as int] > 0
                },
            1 <= i <= legal@.len(),
            b < i,
            best == legal@[b as int],
            best_score == keys[b as int],
            legal@.contains(best),
            forall|j: int| 0 <= j < i ==> keys[j] <= keys[b as int],
            forall|j: int| b < j < i ==> keys[j] < keys[b as int],
        decreases legal@.len() - i,
    {
        let s = greedy_score(game, legal[i]);
        assert(s == keys[i as int]);
        if s >= best_score {
            best = legal[i];
            best_score = s;
            b = i;
            assert(legal@.contains(legal@[i as int]));
        }
        i += 1;
    }
    proof {
        assert(last_max(keys, b as int));
        lemma_last_max_unique(keys, b as int);
    }
    Some(best)
}

/// Depth-limited minimax from `me`'s store perspective; extra turns keep
/// the same player at the node (no negation).
fn search_root(game: &Mancala, legal: &Vec<usize>) -> (r: Option<usize>)
    requires
        game.wf(),
        legal@ == legal_moves(*game),
        legal@.len() > 0,
    ensures
        r matches Some(p) && legal@.contains(p),
        r == Some(search_choice(*game)),
{
    let me = game.turn();
    proof {
        lemma_legal_moves(*game);
    }
    let ghost keys = search_keys(*game);
    let mut best: Option<(usize, i32)> = None;
    let ghost mut b: int = 0;
    let mut i: usize = 0;
    while i < legal.len()
        invariant
            game.wf(),
            legal@ == legal_moves(*game),
            me == game.turn_spec(),
            keys == search_keys(*game),
            0 <= i <= legal@.len(),
            forall|k: int|
                0 <= k < legal_moves(*game).len() ==> {
                    let p = #[trigger] legal_moves(*game)[k];
                    &&& game.status_spec() is Ongoing
                    &&& own_pit(game.turn_spec(), p as int)
                    &&& game.pits_spec()[p as int] > 0
                },
            best matches Some(bb) ==> legal@.contains(bb.0),
            i > 0 ==> best is Some,
            i == 0 ==> best is None,
            i > 0 ==> 0 <= b < i,
            best matches Some(bb) ==> bb.0 == legal@[b] && bb.1 == keys[b],
            i > 0 ==> forall|j: int| 0 <= j < i ==> keys[j] <= keys[b],
            i > 0 ==> forall|j: int| 0 <= j < b ==> keys[j] < keys[b],
        decreases legal@.len() - i,
    {
        let p = legal[i];
        let mut child = *game;
        let ok = child.sow(p);
        assert(ok);
        let v = negamax(&child, 2, me);
        proof {
            let c = after_sowing(*game, p);
            assert(game.sowed(p, c) && c.wf());
            lemma_sowed_unique(*game, p, child, c);
            assert(keys[i as int] == search_key(*game, p));
        }
        let score = -v;
        let replace = match best {
            None => true,
            Some((_, s)) => score > s,
        };
        assert(score == keys[i as int]);
        proof {
            if replace {
                b = i as int;
            }
        }
        if replace {
            best = Some((p, score));
            assert(legal@.contains(legal@[i as int]));
        }
        i += 1;
    }
    proof {
        assert(first_max(keys, b));
        lemma_first_max_unique(keys, b);
    }
    match best {
        Some((p, _)) => Some(p),
        None => None,
    }
}

/// The position after the side to move sows `p`.
pub open spec fn after_sowing(game: Mancala, p: usize) -> Mancala {
    choose|c: Mancala| game.sowed(p, c) && c.wf()
}

/// Depth-limited minimax value of `game` for `me`: the leaf value once the
/// game is over, the depth is spent or no pit can be sown, and otherwise
/// the best value after each legal sowing, for `me` when `me` is to move and
/// against `me` otherwise.
pub open spec fn minimax_value(game: Mancala, depth: nat, me: Side) -> int
    decreases depth, 0nat,
{
    let legal = legal_moves(game);
    if !(game.status_spec() is Ongoing) || depth == 0 || legal.len() == 0 {
        leaf_value(game, me)
    } else {
        best_child(game, (depth - 1) as nat, me, legal.len())
    }
}

/// The best, for the side to move, of the values `depth` plies deep after
/// each of the first `n` legal sowings of `game`; ties keep the earlier.
pub open spec fn best_child(game: Mancala, depth: nat, me: Side, n: nat) -> int
    decreases depth, n,
{
    if n == 0 {
        0
    } else {
        let v = minimax_value(after_sowing(game, legal_moves(game)[n - 1]), depth, me);
        if n == 1 {
            v
        } else {
            let b = best_child(game, depth, me, (n - 1) as nat);
            if game.turn_spec() == me {
                if v > b {
                    v
                } else {
                    b
                }
            } else {
                if v < b {
                    v
                } else {
                    b
                }
            }
        }
    }
}

fn negamax(game: &Mancala, depth: u8, me: Side) -> (r: i32)
    requires
        game.wf(),
    ensures
        r == minimax_value(*game, depth as nat, me),
        !(game.status_spec() is Ongoing) || depth == 0 || legal_moves(*game).len() == 0 ==> r
            == leaf_value(*game, me),
        -20_000 <= r <= 20_000,
    decreases depth,
{
    if !game.status().is_ongoing() || depth == 0 {
        return terminal_or_eval(game, me);
    }
    // Score is always reported from `me`; recursion sign depends on who acts.
    let acting_is_me = game.turn() == me;
    let legal = game.legal_pits();
    if legal.len() == 0 {
        return terminal_or_eval(game, me);
    }
    proof {
        lemma_legal_moves(*game);
    }
    let mut best: i32 = if acting_is_me {
        i32::MIN
    } else {
        i32::MAX
    };
    let mut i: usize = 0;
    while i < legal.len()
        invariant
            game.wf(),
            legal@ == legal_moves(*game),
            0 <= i <= legal@.len(),
            depth >= 1,
            game.status_spec() is Ongoing,
            legal@.len() > 0,
            forall|k: int|
                0 <= k < legal_moves(*game).len() ==> {
                    let p = #[trigger] legal_moves(*game)[k];
                    &&& game.status_spec() is Ongoing
                    &&& own_pit(game.turn_spec(), p as int)
                    &&& game.pits_spec()[p as int] > 0
                },
            i > 0 ==> -20_000 <= best <= 20_000,
            i == 0 ==> best == if acting_is_me {
                i32::MIN
            } else {
                i32::MAX
            },
            acting_is_me == (game.turn_spec() == me),
            i > 0 ==> best == best_child(*game, (depth - 1) as nat, me, i as nat),
        decreases legal@.len() - i,
    {
        let p = legal[i];
        let mut child = *game;
        let ok = child.sow(p);
        assert(ok);
        let score = negamax(&child, depth - 1, me);
        proof {
            let c = after_sowing(*game, p);
            assert(game.sowed(p, child) && child.wf());
            assert(game.sowed(p, c) && c.wf());
            lemma_sowed_unique(*game, p, child, c);
            assert(legal@[i as int] == p);
        }
        best = if i == 0 {
            score
        } else if acting_is_me {
            if score > best {
                score
            } else {
                best
            }
        } else {
            if score < best {
                score
            } else {
                best
            }
        };
        i += 1;
    }
    best
}

/// Leaf value from `me`'s side: three times the store difference, moved
/// by 10000 toward the winner once the game is won.
pub open spec fn leaf_value(game: Mancala, me: Side) -> int {
    let diff = (game.pits_spec()[store_index(me)] - game.pits_spec()[store_index(opposite_of(me))])
        * 3;
    match game.status_spec() {
        Status::Won(w) => if w == me {
            diff + 10_000
        } else {
            diff - 10_000
        },
        _ => diff,
    }
}

fn terminal_or_eval(game: &Mancala, me: Side) -> (r: i32)
    ensures
        r == leaf_value(*game, me),
        -20_000 <= r <= 20_000,
{
    let mine = game.store_of(me) as i32;
    let theirs = game.store_of(me.opposite()) as i32;
    let diff = (mine - theirs) * 3;
    match game.status() {
        Status::Ongoing => diff,
        Status::Won(w) => {
            if w == me {
                diff + 10_000
            } else {
                diff - 10_000
            }
        },
        Status::Draw => diff,
    }
}

} // verus!

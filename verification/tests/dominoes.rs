use rand::rngs::StdRng;
use rand::{Rng, SeedableRng};
use smartasbrain::dominoes::ai::best_move;
use smartasbrain::dominoes::engine::{full_set, Dominoes, Side, Status, Tile};
use smartasbrain::game_core::Difficulty;

fn tile(a: u8, b: u8) -> Tile {
    Tile { a, b }
}

#[test]
fn deal_shapes_are_exact() {
    let g = Dominoes::new(&mut StdRng::seed_from_u64(1));
    assert_eq!(g.hand(Side::White).len(), 7);
    assert_eq!(g.hand(Side::Black).len(), 7);
    assert_eq!(g.boneyard_len(), 14);
    assert_eq!(g.turn(), Side::White);
    assert!(g.status().is_ongoing());
}

#[test]
fn full_set_holds_each_tile_once() {
    let set = full_set();
    assert_eq!(set.len(), 28);
    assert_eq!(set[0], tile(0, 0));
    assert_eq!(set[6], tile(0, 6));
    assert_eq!(set[27], tile(6, 6));
    let pips: u32 = set.iter().map(|t| u32::from(t.pips())).sum();
    assert_eq!(pips, 168);
}

#[test]
fn first_play_is_free_and_sets_both_ends() {
    let mut g = Dominoes::new(&mut StdRng::seed_from_u64(2));
    assert!(g.play(0));
    let (l, r) = g.ends();
    assert!(l.is_some() && r.is_some());
    assert_eq!(g.line().len(), 2);
    assert_eq!(g.turn(), Side::Black);
}

#[test]
fn ends_must_match_to_extend() {
    let mut g = Dominoes::new(&mut StdRng::seed_from_u64(3));
    g.force_state(
        [vec![tile(3, 5)], vec![tile(6, 6), tile(0, 1)]],
        vec![],
        vec![3, 5],
        Side::Black,
    );
    // Neither 6|6 nor 0|1 touches a 3 or a 5.
    assert!(!g.play(0));
    assert!(!g.must_draw(), "yard is empty");
    assert!(g.can_pass());
}

#[test]
fn forced_draws_refill_until_playable_or_dry() {
    let mut g = Dominoes::new(&mut StdRng::seed_from_u64(4));
    g.force_state(
        [vec![tile(0, 0)], vec![tile(6, 6)]],
        vec![tile(3, 5), tile(5, 5)],
        vec![1, 4],
        Side::Black,
    );
    // Black holds 6|6: nothing matches the 1/4 ends -> draw twice dry.
    assert!(g.must_draw());
    assert!(g.draw_one());
    assert!(g.draw_one());
    assert!(!g.must_draw());
    assert!(!g.play(0), "6|6 still cannot land on 1 or 4");
    assert!(g.can_pass(), "yard drained -> pass is the only move");
}

#[test]
fn double_pass_resolves_block_by_pip_count() {
    let mut g = Dominoes::new(&mut StdRng::seed_from_u64(5));
    g.force_state([vec![tile(0, 0)], vec![tile(1, 1)]], vec![], vec![2, 3], Side::White);
    assert!(g.can_pass());
    assert!(g.pass());
    assert!(g.pass());
    assert!(matches!(g.status(), Status::Won(Side::White, 2)), "white holds 0 vs black's 2");
}

#[test]
fn dominoing_scores_opponent_leftovers() {
    let mut g = Dominoes::new(&mut StdRng::seed_from_u64(6));
    g.force_state(
        [vec![tile(2, 3)], vec![tile(4, 4), tile(6, 6)]],
        vec![],
        vec![2, 3],
        Side::White,
    );
    assert!(g.play(0));
    assert!(matches!(g.status(), Status::Won(Side::White, 20)));
}

#[test]
fn tiles_turn_to_meet_the_chain() {
    let mut g = Dominoes::new(&mut StdRng::seed_from_u64(7));
    g.force_state(
        [vec![tile(1, 2), tile(0, 0)], vec![tile(5, 6)]],
        vec![],
        vec![2, 4],
        Side::White,
    );
    // 1|2 matches the left 2 only, so it goes there turned as 1-2.
    assert!(g.play_on(0, false));
    assert_eq!(g.line(), &[1, 2, 2, 4]);
    assert_eq!(g.turn(), Side::Black);
}

#[test]
fn ai_self_play_always_legal_and_terminates() {
    for seed in 0..8_u64 {
        let mut rng = StdRng::seed_from_u64(seed);
        let mut g = Dominoes::new(&mut rng);
        let mut plies = 0_u32;
        while g.status().is_ongoing() {
            while g.must_draw() {
                assert!(g.draw_one());
            }
            if g.can_pass() {
                assert!(g.pass());
            } else {
                let moves = g.legal_moves();
                let pick = moves[rng.gen_range(0..moves.len())];
                assert!(g.play(pick.0), "engine suggested illegal move");
            }
            plies += 1;
            assert!(plies < 400);
        }
    }
}

#[test]
fn every_ai_level_picks_a_playable_tile() {
    for difficulty in Difficulty::ALL {
        let mut g = Dominoes::new(&mut StdRng::seed_from_u64(8));
        let mut plies = 0_u32;
        while g.status().is_ongoing() {
            while g.must_draw() {
                assert!(g.draw_one());
            }
            match best_move(&g, difficulty) {
                Some(idx) => assert!(g.play(idx), "{difficulty:?} chose an illegal tile"),
                None => assert!(g.pass()),
            }
            plies += 1;
            assert!(plies < 400);
        }
    }
}

#[test]
fn hard_prefers_shedding_heavy_tiles() {
    let mut g = Dominoes::new(&mut StdRng::seed_from_u64(9));
    g.force_state(
        [vec![tile(0, 1), tile(6, 1)], vec![tile(2, 2)]],
        vec![],
        vec![1, 3],
        Side::White,
    );
    assert_eq!(best_move(&g, Difficulty::Medium), Some(1));
    assert_eq!(best_move(&g, Difficulty::Hard), Some(1));
}

#[test]
fn deal_follows_the_given_order() {
    let set = full_set();
    let g = Dominoes::deal(set.clone());
    assert_eq!(g.hand(Side::White), &set[0..7]);
    assert_eq!(g.hand(Side::Black), &set[7..14]);
    assert_eq!(g.boneyard_len(), 14);
    assert!(g.line().is_empty());
    assert_eq!(g.turn(), Side::White);
    assert!(g.status().is_ongoing());
}

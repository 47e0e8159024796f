use smartasbrain::game_core::Difficulty;
use smartasbrain::mancala::ai::best_move;
use smartasbrain::mancala::engine::{Mancala, Side, Status, STORES};

fn set_all(g: &mut Mancala, pits: [u8; STORES]) {
    for (i, v) in pits.iter().enumerate() {
        g.force_pit(i, *v);
    }
}

#[test]
fn initial_board_has_four_seeds_per_pit() {
    let g = Mancala::new();
    assert_eq!(g.pit(0), 4);
    assert_eq!(g.pit(12), 4);
    assert_eq!(g.store_of(Side::White), 0);
    assert_eq!(g.turn(), Side::White);
}

#[test]
fn sowing_wraps_and_skips_opponent_store() {
    let mut g = Mancala::new();
    g.force_pit(5, 8);
    assert!(g.sow(5));
    assert_eq!(g.pit(13), 0, "opponent store skipped");
    assert_eq!(g.store_of(Side::White), 1);
}

#[test]
fn store_landing_grants_extra_turn() {
    let mut g = Mancala::new();
    assert!(g.sow(2));
    assert_eq!(g.turn(), Side::White);
    assert_eq!(g.last_sown(), Some(6));
}

#[test]
fn capture_takes_mirror_pair_into_store() {
    let mut g = Mancala::new();
    set_all(&mut g, [4, 0, 0, 0, 0, 0, 0, 4, 1, 4, 4, 4, 4, 0]);
    assert!(g.sow(0));
    assert_eq!(g.captured_last(), Some((8, 2)));
    assert_eq!(g.store_of(Side::White), 2);
    assert_eq!(g.pit(4), 0);
    assert_eq!(g.pit(8), 0);
}

#[test]
fn illegal_sources_are_rejected() {
    let mut g = Mancala::new();
    assert!(!g.sow(6), "store not sowable");
    assert!(!g.sow(9), "opponent pit");
    assert!(!g.sow(13), "opponent store");
}

#[test]
fn sweep_ends_game_with_majority_winner() {
    let mut g = Mancala::new();
    set_all(&mut g, [0, 0, 0, 0, 0, 6, 10, 0, 0, 0, 0, 0, 2, 3]);
    assert!(g.sow(5));
    assert!(!g.status().is_ongoing());
    assert_eq!(g.store_of(Side::Black), 3 + 5 + 2);
    assert!(matches!(g.status(), Status::Won(Side::White)));
}

#[test]
fn legal_pits_track_side_and_seeds() {
    let mut g = Mancala::new();
    let legal = g.legal_pits();
    assert_eq!(legal.len(), 6);
    assert!(legal.iter().all(|&i| i < 6));
    g.sow(2);
    assert_eq!(g.turn(), Side::White);
}

#[test]
fn ai_easy_self_play_stays_legal_until_finished() {
    for _seed in 0..6_u64 {
        let mut g = Mancala::new();
        let mut plies = 0_u32;
        while g.status().is_ongoing() {
            let legal = g.legal_pits();
            let Some(pick) = best_move(&g, Difficulty::Easy) else {
                break;
            };
            assert!(legal.contains(&pick), "illegal ai sow {pick}");
            assert!(g.sow(pick));
            plies += 1;
            assert!(plies < 400, "game must terminate");
        }
    }
}

#[test]
fn medium_takes_free_extra_turn() {
    let mut g = Mancala::new();
    for i in 0..STORES {
        g.force_pit(i, if i == 2 { 4 } else { 0 });
    }
    assert_eq!(best_move(&g, Difficulty::Medium), Some(2));
}

#[test]
fn finished_game_yields_no_move() {
    let mut g = Mancala::new();
    for i in 0..STORES {
        g.force_pit(i, 0);
    }
    g.finish_into_win(Side::White);
    assert_eq!(best_move(&g, Difficulty::Hard), None);
}

#[test]
fn side_helpers_match_the_board_layout() {
    assert_eq!(Side::White.pit_range(), 0..6);
    assert_eq!(Side::Black.pit_range(), 7..13);
    assert_eq!(Side::White.store(), 6);
    assert_eq!(Side::Black.store(), 13);
    assert_eq!(Side::White.opposite(), Side::Black);
    assert_eq!(Mancala::new().pit(99), 0);
}

#[test]
fn long_sow_laps_the_board_and_lands_on_the_sowing_pit() {
    // Thirteen seeds from pit 0 go once around (skipping black's store) and
    // the last one lands back in pit 0, which now holds a single seed: with
    // seeds opposite, that is a capture.
    let mut g = Mancala::new();
    set_all(&mut g, [13, 0, 0, 0, 0, 0, 0, 0, 0, 0, 0, 0, 0, 0]);
    assert!(g.sow(0));
    assert_eq!(g.last_sown(), Some(0));
    assert_eq!(g.captured_last(), Some((12, 2)));
    assert_eq!(g.store_of(Side::White), 1 + 2);
    assert_eq!(g.pit(13), 0);
    assert_eq!(g.turn(), Side::Black);
}

#[test]
fn hard_and_medium_pick_legal_pits() {
    let g = Mancala::new();
    for d in [Difficulty::Easy, Difficulty::Medium, Difficulty::Hard] {
        let p = best_move(&g, d).expect("start has moves");
        assert!(g.legal_pits().contains(&p));
    }
}

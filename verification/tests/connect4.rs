use rand::rngs::StdRng;
use rand::{Rng, SeedableRng};
use smartasbrain::connect4::ai::best_move;
use smartasbrain::connect4::engine::{Connect4, Side, Status, COLS, ROWS};
use smartasbrain::game_core::Difficulty;

/// Drops through a fixed sequence of columns (panics in tests only).
fn seq(g: &mut Connect4, cols: &[usize]) {
    for &c in cols {
        assert!(g.drop(c), "drop into {c} should land");
    }
}

#[test]
fn drop_fills_upward_and_refuses_full_columns() {
    let mut g = Connect4::new();
    seq(&mut g, &[0, 0, 0]);
    assert_eq!(g.cell(0, 0), Some(Side::Black));
    assert_eq!(g.cell(1, 0), Some(Side::White));
    assert_eq!(g.cell(2, 0), Some(Side::Black));
    assert_eq!(g.cell(5, 0), None, "column not full yet");
    let mut filler = Connect4::new();
    for _ in 0..ROWS {
        filler.drop(3);
    }
    assert_eq!(filler.col_height(3), ROWS);
    assert!(!filler.drop(3), "full column refuses");
}

#[test]
fn horizontal_vertical_and_diagonal_wins_are_detected() {
    let mut h = Connect4::new();
    for c in [0_usize, 4, 1, 5, 2, 6, 3] {
        h.drop(c);
    }
    assert!(matches!(h.status(), Status::Won(Side::Black)));

    let mut v = Connect4::new();
    for c in [0_usize, 1, 0, 1, 0, 1, 0] {
        v.drop(c);
    }
    assert!(matches!(v.status(), Status::Won(Side::Black)));

    let mut d = Connect4::new();
    for c in [0_usize, 1, 1, 2, 2, 3, 2, 3, 3, 5, 3] {
        assert!(d.drop(c));
    }
    assert!(matches!(d.status(), Status::Won(Side::Black)));
}

#[test]
fn draw_is_reachable_when_the_grid_fills() {
    let mut rng = StdRng::seed_from_u64(42);
    for _ in 0..600 {
        let mut g = Connect4::new();
        while matches!(g.status(), Status::Ongoing) {
            let open = g.open_columns();
            let col = open[rng.gen_range(0..open.len())];
            g.drop(col);
        }
        if g.status() == Status::Draw {
            return;
        }
    }
    panic!("no draw occurred across 600 seeded random games");
}

#[test]
fn turns_strictly_alternate_and_stops_on_win() {
    let mut g = Connect4::new();
    assert_eq!(g.turn(), Side::Black);
    g.drop(0);
    assert_eq!(g.turn(), Side::White);
    let mut w = Connect4::new();
    for c in [0_usize, 1, 0, 1, 0, 1, 0] {
        w.drop(c);
    }
    assert!(matches!(w.status(), Status::Won(Side::Black)));
    assert_eq!(w.turn(), Side::White);
    assert!(!w.drop(2), "finished game refuses further drops");
}

#[test]
fn immediate_win_taken_at_medium() {
    let mut g = Connect4::new();
    for c in [0_usize, 4, 1, 5, 2, 6] {
        g.drop(c);
    }
    assert_eq!(g.turn(), Side::Black);
    assert_eq!(best_move(&g, Difficulty::Medium), Some(3));
}

#[test]
fn blocks_obvious_threat_at_medium_and_hard() {
    let mut g = Connect4::new();
    for c in [0_usize, 4, 1, 5, 2] {
        g.drop(c);
    }
    assert_eq!(g.turn(), Side::White);
    assert_eq!(best_move(&g, Difficulty::Medium), Some(3));
    assert_eq!(best_move(&g, Difficulty::Hard), Some(3));
}

#[test]
fn easy_self_play_stays_legal_until_finished() {
    for seed in 0..8_u64 {
        let _rng = StdRng::seed_from_u64(seed);
        let mut g = Connect4::new();
        let mut plies = 0;
        while matches!(g.status(), Status::Ongoing) {
            let Some(col) = best_move(&g, Difficulty::Easy) else {
                break;
            };
            assert!(g.open_columns().contains(&col), "illegal ai move");
            assert!(g.drop(col));
            plies += 1;
            assert!(plies <= 42);
        }
        assert!(plies > 0);
    }
}

#[test]
fn hard_search_completes_within_budget_on_start_position() {
    let g = Connect4::new();
    let start = std::time::Instant::now();
    let mv = best_move(&g, Difficulty::Hard);
    assert!(mv.is_some());
    assert!(start.elapsed().as_secs_f64() < 5.0, "hard search must stay CI-safe");
}

#[test]
fn symbol_and_opposite_and_open_columns() {
    assert_eq!(Side::Black.opposite(), Side::White);
    assert_eq!(Side::White.symbol(), '\u{25cf}');
    let mut g = Connect4::new();
    assert_eq!(g.open_columns(), (0..COLS).collect::<Vec<_>>());
    for _ in 0..ROWS {
        g.drop(2);
    }
    assert_eq!(g.open_columns(), vec![0, 1, 3, 4, 5, 6]);
    assert_eq!(g.last_drop(), Some((5, 2)));
    assert_eq!(g.cell(9, 9), None);
    assert!(Status::Ongoing.is_ongoing());
    assert!(!Status::Draw.is_ongoing());
}

#[test]
fn finished_game_hard_falls_back_to_first_open_column() {
    let mut w = Connect4::new();
    for c in [0_usize, 1, 0, 1, 0, 1, 0] {
        w.drop(c);
    }
    assert_eq!(best_move(&w, Difficulty::Medium), None);
    assert_eq!(best_move(&w, Difficulty::Easy), None);
    assert_eq!(best_move(&w, Difficulty::Hard), Some(0));
}

#[test]
fn drop_lands_on_top_of_the_column() {
    let mut g = Connect4::new();
    seq(&mut g, &[3, 3, 4]);
    let before: Vec<Option<Side>> = (0..ROWS)
        .flat_map(|r| (0..COLS).map(move |c| (r, c)))
        .map(|(r, c)| g.cell(r, c))
        .collect();
    let h = (0..ROWS).filter(|&r| g.cell(r, 3).is_some()).count();
    assert_eq!(h, 2);
    let mover = g.turn();
    assert!(g.drop(3));
    assert_eq!(g.last_drop(), Some((h, 3)));
    assert_eq!(g.cell(h, 3), Some(mover));
    assert_eq!(g.turn(), mover.opposite());
    for r in 0..ROWS {
        for c in 0..COLS {
            if (r, c) != (h, 3) {
                assert_eq!(g.cell(r, c), before[r * COLS + c]);
            }
        }
    }
}

use smartasbrain::battleship::ai::best_shot;
use smartasbrain::battleship::engine::{
    Battleship, CellView, Ship, ShipKind, ShotOutcome, Side, Status, CELLS, FLEET,
};
use smartasbrain::game_core::Difficulty;
use rand::rngs::StdRng;
use rand::SeedableRng;

fn ship(kind: ShipKind, cells: &[usize]) -> Ship {
    Ship { kind, cells: cells.to_vec(), sunk: false }
}

#[test]
fn placement_is_complete_and_collision_free() {
    for seed in 0..25_u64 {
        let mut rng = StdRng::seed_from_u64(seed);
        let g = Battleship::new(&mut rng);
        for side in [Side::White, Side::Black] {
            let mut seen = [false; CELLS];
            let fleet = g.fleet_cells(side);
            assert_eq!(fleet.len(), FLEET.len());
            for (k, (kind, cells)) in fleet.iter().enumerate() {
                assert_eq!(*kind, FLEET[k]);
                assert_eq!(cells.len(), kind.len(), "{} length", kind.name());
                for &c in cells {
                    assert!(c < CELLS);
                    assert!(!seen[c], "overlap at {c}");
                    seen[c] = true;
                }
            }
            assert_eq!(seen.iter().filter(|&&v| v).count(), 17);
        }
    }
}

#[test]
fn fire_resolves_miss_hit_sunk_and_win() {
    let mut g = Battleship::new(&mut StdRng::seed_from_u64(9));
    g.force_fleet(
        Side::Black,
        vec![
            ship(ShipKind::Destroyer, &[0, 1]),
            ship(ShipKind::Carrier, &[22, 23, 24, 32, 33]),
        ],
    );
    g.force_fleet(Side::White, vec![ship(ShipKind::Destroyer, &[99, 98])]);
    // White hunts the black destroyer at cells 0-1.
    assert_eq!(g.fire(0), Some(ShotOutcome::Hit));
    assert_eq!(g.turn(), Side::Black);
    assert!(g.fire(40).is_some(), "black answers into open water");
    assert_eq!(g.turn(), Side::White);
    assert_eq!(g.fire(1), Some(ShotOutcome::Sunk(ShipKind::Destroyer)));
    assert_eq!(g.enemy_view(Side::White)[0], CellView::Sunk);
    assert_eq!(g.remaining(Side::Black).len(), 1, "carrier afloat");
    assert_eq!(g.turn(), Side::Black);
    // Black cannot re-fire black's own earlier cell either.
    let before = g.turn();
    assert_eq!(g.fire(40), None);
    assert_eq!(g.turn(), before);
}

#[test]
fn sinking_the_last_ship_ends_the_game() {
    let mut g = Battleship::new(&mut StdRng::seed_from_u64(11));
    g.force_fleet(Side::Black, vec![ship(ShipKind::Destroyer, &[0, 1])]);
    g.force_fleet(Side::White, vec![ship(ShipKind::Destroyer, &[50, 51])]);
    assert_eq!(g.fire(0), Some(ShotOutcome::Hit));
    assert!(g.fire(55).is_some(), "black answers");
    assert_eq!(g.fire(1), Some(ShotOutcome::Sunk(ShipKind::Destroyer)));
    assert_eq!(g.status(), Status::Won(Side::White));
    assert_eq!(g.fire(2), None, "no shots after the game ends");
}

#[test]
fn enemy_view_hides_unshot_ships() {
    let mut g = Battleship::new(&mut StdRng::seed_from_u64(13));
    g.force_fleet(Side::Black, vec![ship(ShipKind::Destroyer, &[0, 1])]);
    g.force_fleet(Side::White, vec![ship(ShipKind::Destroyer, &[50, 51])]);
    let clean = g.enemy_view(Side::White);
    assert!(clean.iter().all(|v| *v == CellView::Unknown));
    let _ = g.fire(0);
    let view = g.enemy_view(Side::White);
    assert_eq!(view[0], CellView::Hit);
    assert_eq!(view[1], CellView::Unknown, "adjacency stays hidden");
    assert_eq!(g.fire(CELLS), None, "out of range");
}

#[test]
fn own_cell_and_masks_report_incoming_fire() {
    let mut g = Battleship::new(&mut StdRng::seed_from_u64(15));
    g.force_fleet(Side::Black, vec![ship(ShipKind::Destroyer, &[0, 1])]);
    g.force_fleet(Side::White, vec![ship(ShipKind::Destroyer, &[50, 51])]);
    assert_eq!(g.fire(1), Some(ShotOutcome::Hit));
    assert_eq!(g.own_cell(Side::Black, 1), (Some(ShipKind::Destroyer), true));
    assert_eq!(g.own_cell(Side::Black, 2), (None, false));
    let masks = g.incoming_masks();
    assert!(masks[1][1] && !masks[0][1]);
    assert!(g.shots_by(Side::White)[1]);
}

#[test]
fn restore_recomputes_sunk_ships_and_status() {
    let mut g = Battleship::new(&mut StdRng::seed_from_u64(17));
    let mut white_mask = [false; CELLS];
    white_mask[50] = true;
    white_mask[51] = true;
    let black_mask = [false; CELLS];
    g.restore_state(
        Side::White,
        [
            vec![(ShipKind::Destroyer, vec![50, 51])],
            vec![(ShipKind::Destroyer, vec![0, 1])],
        ],
        [white_mask, black_mask],
    );
    assert_eq!(g.status(), Status::Won(Side::Black), "white's only ship is down");
    assert_eq!(g.remaining(Side::White).len(), 0);
    assert_eq!(g.remaining(Side::Black), vec![(ShipKind::Destroyer, 2)]);
}

#[test]
fn every_ai_level_fires_only_at_unknown_water() {
    for difficulty in Difficulty::ALL {
        let mut g = Battleship::new(&mut StdRng::seed_from_u64(19));
        let mut shots = 0;
        while g.status() == Status::Ongoing && shots < 300 {
            let view = g.enemy_view(g.turn());
            let cell = best_shot(&g, difficulty).expect("open water remains while the game runs");
            assert_eq!(view[cell], CellView::Unknown);
            assert!(g.fire(cell).is_some());
            shots += 1;
        }
        assert!(matches!(g.status(), Status::Won(_)), "{difficulty:?} finishes the game");
    }
}

#[test]
fn no_shot_once_every_cell_is_tried() {
    let mut g = Battleship::new(&mut StdRng::seed_from_u64(21));
    g.force_fleet(Side::Black, vec![ship(ShipKind::Destroyer, &[98, 99])]);
    g.force_fleet(Side::White, vec![ship(ShipKind::Destroyer, &[0, 1])]);
    for cell in 0..CELLS {
        // White sweeps the black waters; black answers without sinking
        // white's destroyer.
        assert!(g.fire(cell).is_some());
        if g.status() == Status::Ongoing {
            let answer = if cell < 98 { cell + 2 } else { 0 };
            assert!(g.fire(answer).is_some());
        }
    }
    assert_eq!(g.status(), Status::Won(Side::White));
    assert_eq!(g.turn(), Side::White);
    assert_eq!(best_shot(&g, Difficulty::Easy), None);
}

#[test]
fn medium_finishes_a_wounded_ship_before_hunting() {
    let mut g = Battleship::new(&mut StdRng::seed_from_u64(23));
    let white_mask = [false; CELLS];
    let mut black_mask = [false; CELLS];
    // White has hit Black's carrier at 44 and nothing else.
    black_mask[44] = true;
    g.restore_state(
        Side::White,
        [
            vec![(ShipKind::Destroyer, vec![0, 1])],
            vec![(ShipKind::Carrier, vec![42, 43, 44, 45, 46])],
        ],
        [white_mask, black_mask],
    );
    for _ in 0..20 {
        let cell = best_shot(&g, Difficulty::Medium).expect("open water remains");
        assert!([34, 54, 43, 45].contains(&cell), "fires next to the hit, got {cell}");
    }
}

#[test]
fn medium_hunts_on_the_checkerboard() {
    let g = Battleship::new(&mut StdRng::seed_from_u64(25));
    for _ in 0..20 {
        let cell = best_shot(&g, Difficulty::Medium).expect("open water remains");
        assert_eq!((cell / 10 + cell % 10) % 2, 0, "hunts on dark squares, got {cell}");
    }
}

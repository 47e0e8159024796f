use smartasbrain::battleship::control::BattleshipControl;
use smartasbrain::battleship::engine::{Side, GRID};
use smartasbrain::game_core::seat::{Key, Opponent};
use smartasbrain::game_core::Difficulty;

fn started_two_player() -> BattleshipControl {
    let mut g = BattleshipControl::new();
    g.handle_key(Key::Enter);
    g
}

fn key(g: &mut BattleshipControl, k: Key) {
    g.handle_key(k);
}

fn shot_count(g: &BattleshipControl, side: Side) -> usize {
    g.engine.shots_by(side).iter().filter(|&&v| v).count()
}

fn total_fleet_cells(g: &BattleshipControl) -> usize {
    let mut n = 0;
    for side in [Side::White, Side::Black] {
        for cell in 0..GRID * GRID {
            if g.engine.own_cell(side, cell).0.is_some() {
                n += 1;
            }
        }
    }
    n
}

#[test]
fn duel_menu_mapping_and_self_play_fires() {
    let mut g = BattleshipControl::new();
    key(&mut g, Key::Char('5')); // AI DUEL - EASY
    key(&mut g, Key::Enter);
    assert_eq!(g.seat.opponent, Opponent::Battle(Difficulty::Easy));
    let mut hard = BattleshipControl::new();
    key(&mut hard, Key::Char('7'));
    key(&mut hard, Key::Enter);
    assert_eq!(hard.seat.opponent, Opponent::Battle(Difficulty::Hard));
    let before = shot_count(&g, Side::White) + shot_count(&g, Side::Black);
    for _ in 0..300 {
        g.tick();
        if !g.engine.status().is_ongoing() {
            break;
        }
    }
    assert!(
        shot_count(&g, Side::White) + shot_count(&g, Side::Black) > before,
        "duel must exchange fire"
    );
}

#[test]
fn vs_ai_replies_after_human_shot() {
    let mut g = BattleshipControl::new();
    key(&mut g, Key::Down); // VS AI - EASY
    key(&mut g, Key::Enter);
    assert_eq!(g.ai_side, Side::Black);
    key(&mut g, Key::Enter); // white fires cell 0
    assert_eq!(shot_count(&g, Side::White), 1);
    for _ in 0..200 {
        g.tick();
        if shot_count(&g, Side::Black) > 0 || !g.engine.status().is_ongoing() {
            break;
        }
    }
    assert!(shot_count(&g, Side::Black) > 0, "AI must answer within 200 ticks");
}

#[test]
fn battleship_duel_input_is_inert_except_keeper_keys() {
    let mut g = BattleshipControl::new();
    key(&mut g, Key::Char('5'));
    key(&mut g, Key::Enter);
    for _ in 0..12 {
        g.tick();
    }
    let total_before = shot_count(&g, Side::White) + shot_count(&g, Side::Black);
    for k in [Key::Enter, Key::Char(' '), Key::Char('r')] {
        key(&mut g, k);
    }
    g.click_cell(55);
    g.restart_button();
    assert_eq!(
        shot_count(&g, Side::White) + shot_count(&g, Side::Black),
        total_before,
        "duel frozen to input"
    );
    key(&mut g, Key::Char('R'));
    assert_eq!(total_fleet_cells(&g), 34, "R redeploys fresh fleets");
    assert_eq!(shot_count(&g, Side::White) + shot_count(&g, Side::Black), 0);
    key(&mut g, Key::Char('m'));
    assert!(g.seat.setup_open);
}

#[test]
fn snapshot_round_trips_mid_battle() {
    let mut g = started_two_player();
    key(&mut g, Key::Enter); // white fires cursor cell 0
    let blob = g.snapshot().expect("mid-battle snapshot");
    let mut revived = BattleshipControl::new();
    assert!(revived.restore(&blob));
    assert_eq!(revived.engine.turn(), g.engine.turn());
    assert_eq!(shot_count(&revived, Side::White), shot_count(&g, Side::White));
    assert!(!revived.seat.setup_open);
    let mut fresh = BattleshipControl::new();
    assert!(!fresh.restore(b"junk"));
    assert!(fresh.snapshot().is_none(), "nothing to save behind the picker");
}

#[test]
fn mouse_click_fires_at_target_sea() {
    let mut g = started_two_player();
    let before = shot_count(&g, Side::White);
    g.click_cell(37);
    assert_eq!(shot_count(&g, Side::White), before + 1);
    assert_eq!(g.cursor, 37);
}

#[test]
fn cursor_wraps_round_the_hundred_cells() {
    let mut g = started_two_player();
    key(&mut g, Key::Left);
    assert_eq!(g.cursor, 99);
    key(&mut g, Key::Char('l'));
    assert_eq!(g.cursor, 0);
    key(&mut g, Key::Up);
    assert_eq!(g.cursor, 90);
    key(&mut g, Key::Char('j'));
    assert_eq!(g.cursor, 0);
    key(&mut g, Key::Enter); // White fires at Black's cell 0
    key(&mut g, Key::Enter); // Black fires at White's cell 0
    assert_eq!(shot_count(&g, Side::White) + shot_count(&g, Side::Black), 2);
    // White may not fire at its cell 0 again: the turn stays and nothing is added.
    let turn = g.engine.turn();
    key(&mut g, Key::Enter);
    assert_eq!(g.engine.turn(), turn);
    assert_eq!(shot_count(&g, Side::White) + shot_count(&g, Side::Black), 2);
}

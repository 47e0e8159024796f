use smartasbrain::dominoes::control::DominoesControl;
use smartasbrain::dominoes::engine::Side;
use smartasbrain::game_core::seat::{Key, Opponent};
use smartasbrain::game_core::Difficulty;

fn started_two_player() -> DominoesControl {
    let mut g = DominoesControl::new();
    g.handle_key(Key::Enter);
    g
}

fn key(g: &mut DominoesControl, k: Key) {
    g.handle_key(k);
}

fn hand_len(g: &DominoesControl, side: Side) -> usize {
    g.engine.hand(side).len()
}

#[test]
fn lib_duel_menu_mapping_and_self_play_completes() {
    let mut g = DominoesControl::new();
    key(&mut g, Key::Char('5')); // AI DUEL - EASY
    key(&mut g, Key::Enter);
    assert_eq!(g.seat.opponent, Opponent::Battle(Difficulty::Easy));

    let mut hard = DominoesControl::new();
    key(&mut hard, Key::Char('7'));
    key(&mut hard, Key::Enter);
    assert_eq!(hard.seat.opponent, Opponent::Battle(Difficulty::Hard));

    for _ in 0..3000 {
        g.tick();
        if !g.engine.status().is_ongoing() {
            break;
        }
    }
    assert!(!g.engine.status().is_ongoing(), "duel must finish within 3000 ticks");
}

#[test]
fn vs_ai_answers_within_budget() {
    let mut g = DominoesControl::new();
    key(&mut g, Key::Down);
    key(&mut g, Key::Enter); // VS AI - EASY
    // One legal human action hands the seat to black.
    while g.engine.must_draw() {
        assert!(g.engine.draw_one());
    }
    let legal = g.engine.legal_moves();
    if !legal.is_empty() {
        g.cursor = Some(legal[0].0);
        key(&mut g, Key::Enter);
    } else {
        key(&mut g, Key::Char('p'));
    }
    for _ in 0..200 {
        g.tick();
        if g.engine.turn() == Side::White || !g.engine.status().is_ongoing() {
            break;
        }
    }
    assert!(
        g.engine.turn() == Side::White || !g.engine.status().is_ongoing(),
        "AI must take its seat"
    );
}

#[test]
fn lib_duel_input_is_inert_except_keeper_keys() {
    let mut g = DominoesControl::new();
    key(&mut g, Key::Char('5'));
    key(&mut g, Key::Enter);
    for _ in 0..12 {
        g.tick();
    }
    let before = (hand_len(&g, Side::White), hand_len(&g, Side::Black), g.engine.line().len());
    for k in [Key::Enter, Key::Char('d'), Key::Char('r')] {
        key(&mut g, k);
    }
    g.click_tile(0);
    assert_eq!(
        before,
        (hand_len(&g, Side::White), hand_len(&g, Side::Black), g.engine.line().len()),
        "duel frozen to input"
    );
    key(&mut g, Key::Char('R'));
    assert_eq!(g.engine.line().len(), 0, "R restarts fresh");
    key(&mut g, Key::Char('m'));
    assert!(g.seat.setup_open);
}

#[test]
fn snapshot_round_trips_mid_game_state() {
    let mut g = started_two_player();
    // Play until the line exists, then snapshot.
    for _ in 0..30 {
        if !g.engine.line().is_empty() {
            break;
        }
        let legal = g.engine.legal_moves();
        if legal.is_empty() {
            while g.engine.must_draw() {
                g.engine.draw_one();
            }
        } else {
            g.cursor = Some(legal[0].0);
            key(&mut g, Key::Enter);
        }
    }
    let blob = g.snapshot().expect("mid-game snapshot");
    let mut revived = DominoesControl::new();
    assert!(revived.restore(&blob));
    assert_eq!(revived.engine.line(), g.engine.line());
    assert_eq!(revived.engine.turn(), g.engine.turn());
    assert!(!revived.seat.setup_open);
    let mut fresh = DominoesControl::new();
    assert!(!fresh.restore(b"nonsense"));
    assert!(fresh.seat.setup_open);
    assert!(fresh.snapshot().is_none(), "nothing to save behind the picker");
}

#[test]
fn cursor_cycles_through_the_hand_and_clicks_lay() {
    let mut g = started_two_player();
    let n = hand_len(&g, g.engine.turn());
    assert_eq!(g.cursor, Some(0));
    key(&mut g, Key::Left);
    assert_eq!(g.cursor, Some(n - 1), "left wraps to the last tile");
    key(&mut g, Key::Char('l'));
    assert_eq!(g.cursor, Some(0));

    // The first legal tile laid by a click goes onto the empty line.
    let legal = g.engine.legal_moves();
    assert!(!legal.is_empty(), "the opening lay is always possible");
    let mover = g.engine.turn();
    g.click_tile(legal[0].0);
    assert_eq!(g.cursor, Some(legal[0].0));
    assert_eq!(g.engine.line().len(), 2);
    assert_eq!(hand_len(&g, mover), n - 1);
    assert_ne!(g.engine.turn(), mover);
}

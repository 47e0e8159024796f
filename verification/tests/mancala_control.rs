use smartasbrain::game_core::seat::{Key, Opponent};
use smartasbrain::game_core::Difficulty;
use smartasbrain::mancala::control::MancalaControl;
use smartasbrain::mancala::engine::{Side, STORES};

fn started_two_player() -> MancalaControl {
    let mut g = MancalaControl::new();
    g.handle_key(Key::Enter);
    g
}

fn key(g: &mut MancalaControl, k: Key) {
    g.handle_key(k);
}

fn seeds_on_board(g: &MancalaControl) -> u32 {
    (0..STORES).map(|i| g.engine.pit(i) as u32).sum()
}

#[test]
fn enter_sows_and_extra_turn_keeps_mover() {
    let mut g = started_two_player();
    // The cursor starts at pit 0; its four seeds land in 1..=4 and miss the
    // store, so Black is next.
    key(&mut g, Key::Enter);
    assert_eq!(g.engine.turn(), Side::Black);
    assert_eq!(g.engine.pit(0), 0);
}

#[test]
fn mancala_selecting_vs_ai_then_ticks_makes_ai_reply() {
    let mut g = MancalaControl::new();
    key(&mut g, Key::Down); // VS AI - EASY
    key(&mut g, Key::Enter);
    assert_eq!(g.seat.opponent, Opponent::Ai(Difficulty::Easy));
    assert_eq!(g.ai_side, Side::Black);
    key(&mut g, Key::Enter); // human white sows cursor pit
    assert_eq!(g.engine.turn(), Side::Black);
    for _ in 0..100 {
        g.tick();
        if g.engine.turn() == Side::White || !g.engine.status().is_ongoing() {
            break;
        }
    }
    assert!(
        g.engine.turn() == Side::White || !g.engine.status().is_ongoing(),
        "AI must answer within 100 ticks"
    );
}

#[test]
fn duel_menu_mapping_and_self_play_progresses() {
    let mut g = MancalaControl::new();
    key(&mut g, Key::Char('5')); // AI DUEL - EASY
    key(&mut g, Key::Enter);
    assert_eq!(g.seat.opponent, Opponent::Battle(Difficulty::Easy));
    let before: Vec<u8> = (0..STORES).map(|i| g.engine.pit(i)).collect();
    for _ in 0..300 {
        g.tick();
        if !g.engine.status().is_ongoing() {
            break;
        }
    }
    let after: Vec<u8> = (0..STORES).map(|i| g.engine.pit(i)).collect();
    assert!(after != before || !g.engine.status().is_ongoing(), "duel must move seeds early");
    assert_eq!(seeds_on_board(&g), 48, "sowing never makes or loses a seed");
}

#[test]
fn mancala_duel_input_is_inert_except_keeper_keys() {
    let mut g = MancalaControl::new();
    key(&mut g, Key::Char('5'));
    key(&mut g, Key::Enter);
    for _ in 0..10 {
        g.tick();
    }
    let snapshot: Vec<u8> = (0..STORES).map(|i| g.engine.pit(i)).collect();
    let turn_before = g.engine.turn();
    for k in [Key::Enter, Key::Char(' '), Key::Char('r')] {
        key(&mut g, k);
    }
    g.click_pit(8);
    g.restart();
    let now: Vec<u8> = (0..STORES).map(|i| g.engine.pit(i)).collect();
    assert_eq!(now, snapshot, "board frozen to input");
    assert_eq!(g.engine.turn(), turn_before);
    key(&mut g, Key::Char('R'));
    assert_eq!(g.engine.pit(0), 4, "R restarts the duel fresh");
    key(&mut g, Key::Char('m'));
    assert!(g.seat.setup_open);
}

#[test]
fn mouse_click_sows_via_board_hit() {
    let mut g = started_two_player();
    g.click_pit(0);
    assert_eq!(g.engine.pit(0), 0, "clicked pit was sown");
    assert_eq!(g.engine.turn(), Side::Black);
}

#[test]
fn cursor_skips_empty_pits_and_snaps_to_a_legal_one() {
    let mut g = started_two_player();
    key(&mut g, Key::Enter); // White sows pit 0; Black to move
    assert_eq!(g.engine.turn(), Side::Black);
    assert_eq!(g.cursor, Some(7), "the cursor moved onto the mover's first legal pit");
    key(&mut g, Key::Left);
    assert_eq!(g.cursor, Some(12), "left wraps within the mover's pits");
    key(&mut g, Key::Right);
    assert_eq!(g.cursor, Some(7));

    // A click on the opponent's pit sows the mover's first legal pit instead.
    let mut g = started_two_player();
    g.click_pit(9);
    assert_eq!(g.cursor, Some(0));
    assert_eq!(g.engine.pit(0), 0);
    assert_eq!(g.engine.turn(), Side::Black);
}

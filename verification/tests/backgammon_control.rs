use smartasbrain::backgammon::control::{BackgammonControl, START_CURSOR};
use smartasbrain::backgammon::engine::{Phase, Side, OFF};
use smartasbrain::game_core::seat::{Key, Opponent};
use smartasbrain::game_core::Difficulty;

/// A table past the picker with two human players.
fn started_two_player() -> BackgammonControl {
    let mut g = BackgammonControl::new();
    g.handle_key(Key::Enter); // TWO PLAYERS
    g
}

/// A running duel picked by its digit ('5'..'7' pick the difficulty).
fn started_duel(digit: char) -> BackgammonControl {
    let mut g = BackgammonControl::new();
    g.handle_key(Key::Char(digit));
    g.handle_key(Key::Enter);
    g
}

#[test]
fn keyboard_wraps_horizontally_and_clamps_vertically() {
    let mut g = started_two_player();
    g.cursor = 0;
    g.handle_key(Key::Left);
    assert_eq!(g.cursor, OFF);
    g.handle_key(Key::Right);
    assert_eq!(g.cursor, 0);
    g.handle_key(Key::Up);
    assert_eq!(g.cursor, 0, "clamped at bottom");
    g.cursor = 20;
    g.handle_key(Key::Down);
    assert_eq!(g.cursor, OFF);
    g.cursor = 10;
    g.handle_key(Key::Up);
    assert_eq!(g.cursor, 0, "-12 clamps to 0");
}

#[test]
fn rolls_only_in_roll_phase_and_shift_r_restarts() {
    let mut g = started_two_player();
    assert_eq!(g.engine.phase(), Phase::Roll);
    g.handle_key(Key::Char('r'));
    assert_eq!(g.engine.phase(), Phase::Move);
    let dice = g.engine.dice();
    g.handle_key(Key::Char('r')); // no-op mid-move
    assert_eq!(g.engine.dice(), dice);
    g.handle_key(Key::Char('R'));
    assert_eq!(g.engine.phase(), Phase::Roll);
}

#[test]
fn esc_deselects_but_does_not_quit_and_q_quits() {
    let mut g = started_two_player();
    g.engine.roll_with(3, 1);
    g.cursor = 23;
    g.activate(); // select black checker on 23
    assert_eq!(g.selected, Some(23));
    g.handle_key(Key::Esc);
    assert_eq!(g.selected, None);
    assert!(!g.seat.quit);
    g.handle_key(Key::Char('q'));
    assert!(g.seat.quit);
}

#[test]
fn human_enter_does_nothing_during_setup() {
    let mut g = BackgammonControl::new();
    assert!(g.seat.setup_open);
    // Board-facing actions stay inert while the menu owns the screen.
    for key in [Key::Char('r'), Key::Char('R')] {
        g.handle_key(key);
    }
    assert!(g.seat.setup_open);
    assert_eq!(g.engine.phase(), Phase::Roll);
    // Enter only drives the menu; it never rolls or moves checkers.
    g.handle_key(Key::Enter);
    assert!(!g.seat.setup_open, "Enter confirms the highlighted row");
    assert_eq!(g.seat.opponent, Opponent::Human);
    assert_eq!(g.engine.phase(), Phase::Roll, "Enter must not roll for you");
    assert_eq!(g.engine.turn(), Side::Black);
}

#[test]
fn setup_menu_blocks_input_and_selection_starts_game() {
    let mut g = BackgammonControl::new();
    g.handle_key(Key::Down); // VS AI - EASY
    g.handle_key(Key::Enter);
    assert!(!g.seat.setup_open);
    assert_eq!(g.seat.opponent, Opponent::Ai(Difficulty::Easy));
    assert_eq!(g.ai_side, Side::Black);
    assert_eq!(g.engine.phase(), Phase::Roll, "black (the AI) opens");

    let mut saw_ai_move = false;
    let mut saw_white_turn = false;
    for _ in 0..600 {
        if g.engine.phase() == Phase::Move && g.engine.turn() == Side::Black {
            saw_ai_move = true;
            assert!(!g.engine.left().is_empty(), "AI move phase has dice left");
            // Humans must not be able to play the AI's dice.
            let before = g.engine.left().to_vec();
            g.handle_key(Key::Enter);
            g.handle_key(Key::Char(' '));
            g.handle_key(Key::Char('r'));
            assert_eq!(g.engine.left().to_vec(), before, "input ignored on AI's turn");
        }
        if g.engine.turn() == Side::White {
            saw_white_turn = true;
        }
        g.tick();
        if g.engine.phase() == Phase::GameOver {
            break;
        }
    }
    assert!(saw_ai_move, "AI rolled itself into a move phase");
    assert!(saw_white_turn, "dice were rolled automatically and play alternated");
    assert!(
        (1..=6).contains(&g.engine.dice()[0]) && (1..=6).contains(&g.engine.dice()[1]),
        "dice look like real rolls"
    );
}

#[test]
fn lib_restart_keeps_settings_while_m_reopens_setup() {
    let mut g = BackgammonControl::new();
    g.handle_key(Key::Char('3')); // digit select: MEDIUM
    g.handle_key(Key::Char(' ')); // confirm
    assert_eq!(g.seat.opponent, Opponent::Ai(Difficulty::Medium));
    for _ in 0..50 {
        g.tick(); // AI plays until the human's seat comes up
        if g.engine.phase() == Phase::Roll && g.engine.turn() == Side::White {
            break;
        }
    }
    assert_eq!(g.engine.turn(), Side::White, "AI finished its opening");

    g.handle_key(Key::Char('R'));
    assert!(!g.seat.setup_open);
    assert_eq!(g.seat.opponent, Opponent::Ai(Difficulty::Medium));
    assert_eq!(g.engine.phase(), Phase::Roll, "same settings, fresh board");

    g.handle_key(Key::Char('m'));
    assert!(g.seat.setup_open, "m reopens setup over a fresh game");
    assert_eq!(g.engine.phase(), Phase::Roll);
    assert_eq!(g.engine.points()[0], 2, "fresh start layout");
}

#[test]
fn lib_duel_menu_mapping() {
    let g = started_duel('7'); // AI DUEL - HARD
    assert_eq!(g.seat.opponent, Opponent::Battle(Difficulty::Hard));
    assert!(!g.seat.setup_open, "confirming a duel closes setup");
    assert_eq!(g.engine.phase(), Phase::Roll);
    assert_eq!(g.engine.turn(), Side::Black, "black opens the duel");

    let mut g = BackgammonControl::new();
    g.handle_key(Key::Down);
    g.handle_key(Key::Down);
    g.handle_key(Key::Down);
    g.handle_key(Key::Down); // AI DUEL - EASY
    g.handle_key(Key::Enter);
    assert_eq!(g.seat.opponent, Opponent::Battle(Difficulty::Easy));
}

#[test]
fn duel_self_play_runs_toward_completion() {
    let mut g = started_duel('5');
    let start_off = g.engine.off();
    let mut progressed = false;
    for _ in 0..5000 {
        if g.engine.phase() == Phase::Move {
            for d in g.engine.dice() {
                assert!((1..=6).contains(&d), "die {d} out of range");
            }
            for d in g.engine.left() {
                assert!((1..=6).contains(d), "left die {d} out of range");
            }
        }
        g.tick();
        if g.engine.off().0 + g.engine.off().1 > start_off.0 + start_off.1
            || g.engine.phase() == Phase::GameOver
        {
            progressed = true;
        }
        if g.engine.phase() == Phase::GameOver {
            break;
        }
    }
    assert!(progressed, "duel must bear checkers off or finish (off: {:?})", g.engine.off());
}

#[test]
fn duel_input_inert_except_restart_key() {
    let mut g = started_duel('5');
    for _ in 0..50 {
        g.tick(); // reach black's first move phase
        if g.engine.phase() == Phase::Move {
            break;
        }
    }
    assert_eq!(g.engine.phase(), Phase::Move);

    let snapshot = (
        g.engine.left().to_vec(),
        g.engine.dice(),
        *g.engine.points(),
        g.engine.bar(),
        g.engine.off(),
    );
    let cursor_before = g.cursor;
    g.handle_key(Key::Enter);
    g.handle_key(Key::Char(' '));
    g.handle_key(Key::Char('r'));
    g.click_slot(12);
    g.roll_button();
    g.restart_button();
    assert_eq!(g.engine.left().to_vec(), snapshot.0, "dice left untouched");
    assert_eq!(g.engine.dice(), snapshot.1);
    assert_eq!(*g.engine.points(), snapshot.2, "board untouched");
    assert_eq!(g.engine.bar(), snapshot.3);
    assert_eq!(g.engine.off(), snapshot.4);
    assert_eq!(g.cursor, cursor_before, "clicks must not even steer");

    // 'R' restarts the duel on a fresh board, same settings.
    g.handle_key(Key::Char('R'));
    assert_eq!(g.seat.opponent, Opponent::Battle(Difficulty::Easy));
    assert_eq!(g.engine.phase(), Phase::Roll);
    assert_eq!(g.engine.points()[0], 2, "fresh start layout after R");

    // Lowercase 'r' is not a roll shortcut mid-duel.
    g.handle_key(Key::Char('r'));
    assert_eq!(g.engine.phase(), Phase::Roll, "'r' stays inert in duels");
}

#[test]
fn duel_cursor_keys_still_steer() {
    let mut g = started_duel('6');
    assert_eq!(g.cursor, START_CURSOR);
    g.handle_key(Key::Left);
    assert_eq!(g.cursor, START_CURSOR - 1);
    g.handle_key(Key::Char('j'));
    assert_eq!(g.cursor, OFF);
}

#[test]
fn clicks_roll_then_pick_and_move() {
    let mut g = started_two_player();
    g.click_slot(5); // rolls
    assert_eq!(g.engine.phase(), Phase::Move);
    assert_eq!(g.cursor, 5);

    let mut g = started_two_player();
    g.engine.roll_with(3, 1);
    g.click_slot(23);
    assert_eq!(g.selected, Some(23));
    let before = g.engine.points()[22];
    g.click_slot(22);
    assert_eq!(g.selected, None);
    assert_eq!(g.engine.points()[22], before - 1, "a black checker lands on 22");
}

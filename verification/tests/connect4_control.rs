use smartasbrain::connect4::control::{Connect4Control, START_COLUMN};
use smartasbrain::connect4::engine::{Side, COLS};
use smartasbrain::game_core::seat::{Key, Opponent};
use smartasbrain::game_core::Difficulty;

/// A table past the picker with two human players.
fn started_two_player() -> Connect4Control {
    let mut g = Connect4Control::new();
    g.handle_key(Key::Enter); // TWO PLAYERS
    g
}

fn key(g: &mut Connect4Control, k: Key) {
    g.handle_key(k);
}

fn total_discs(g: &Connect4Control) -> usize {
    (0..COLS).map(|c| g.engine.col_height(c)).sum()
}

#[test]
fn keyboard_drops_alternate_turns() {
    let mut g = started_two_player();
    assert!(!g.seat.setup_open);
    key(&mut g, Key::Left); // cursor col 2
    key(&mut g, Key::Enter);
    assert_eq!(g.engine.cell(0, 2), Some(Side::Black));
    key(&mut g, Key::Enter);
    assert_eq!(g.engine.cell(1, 2), Some(Side::White), "discs stack");
    assert_eq!(g.engine.col_height(2), 2);
}

#[test]
fn lib_selecting_vs_ai_then_ticks_makes_ai_reply() {
    let mut g = Connect4Control::new();
    key(&mut g, Key::Down); // VS AI - EASY
    key(&mut g, Key::Enter);
    assert_eq!(g.seat.opponent, Opponent::Ai(Difficulty::Easy));
    assert_eq!(g.ai_side, Side::White);
    // Human (black) opens at the cursor column.
    let before = total_discs(&g);
    key(&mut g, Key::Enter);
    assert_eq!(total_discs(&g), before + 1);
    for _ in 0..100 {
        g.tick();
        if total_discs(&g) >= 2 {
            break;
        }
    }
    assert!(total_discs(&g) >= 2, "the AI must answer within 100 ticks");
}

#[test]
fn duel_menu_rows_selectable_and_self_play_progresses() {
    let mut g = Connect4Control::new();
    key(&mut g, Key::Char('5')); // AI DUEL - EASY
    key(&mut g, Key::Enter);
    assert!(!g.seat.setup_open);
    assert_eq!(g.seat.opponent, Opponent::Battle(Difficulty::Easy));

    let mut drops = 0;
    let mut last = total_discs(&g);
    for _ in 0..400 {
        g.tick();
        let now = total_discs(&g);
        if now > last {
            drops += 1;
            last = now;
        }
        if !g.engine.status().is_ongoing() {
            break;
        }
    }
    assert!(drops >= 2, "duel must place discs early");
}

#[test]
fn connect4_duel_input_is_inert_except_keeper_keys() {
    let mut g = Connect4Control::new();
    key(&mut g, Key::Char('5')); // AI DUEL - EASY
    key(&mut g, Key::Enter);
    for _ in 0..10 {
        g.tick();
    }
    let discs_before = total_discs(&g);
    let turn_before = g.engine.turn();
    for k in [Key::Enter, Key::Char(' '), Key::Char('r')] {
        key(&mut g, k);
    }
    g.click_column(2);
    g.restart();
    assert_eq!(total_discs(&g), discs_before, "board frozen to input");
    assert_eq!(g.engine.turn(), turn_before);

    key(&mut g, Key::Char('R'));
    assert_eq!(total_discs(&g), 0, "R restarts the duel");
    assert!(matches!(g.seat.opponent, Opponent::Battle(_)));
    key(&mut g, Key::Char('m'));
    assert!(g.seat.setup_open, "m reopens setup");
}

#[test]
fn mouse_click_on_board_drops_a_disc() {
    let mut g = started_two_player();
    let target_col = 2_usize;
    g.click_column(target_col);
    assert_eq!(g.engine.col_height(target_col), 1);
    assert_eq!(g.engine.cell(0, 2), Some(Side::Black));
    assert_eq!(g.cursor_col, target_col);
}

#[test]
fn cursor_clamps_and_full_columns_refuse_discs() {
    let mut g = started_two_player();
    assert_eq!(g.cursor_col, START_COLUMN);
    for _ in 0..10 {
        key(&mut g, Key::Char('l'));
    }
    assert_eq!(g.cursor_col, COLS - 1);
    for _ in 0..10 {
        key(&mut g, Key::Left);
    }
    assert_eq!(g.cursor_col, 0);
    for _ in 0..6 {
        key(&mut g, Key::Down);
    }
    assert_eq!(g.engine.col_height(0), 6);
    let turn = g.engine.turn();
    key(&mut g, Key::Char(' '));
    assert_eq!(g.engine.col_height(0), 6, "a full column takes nothing");
    assert_eq!(g.engine.turn(), turn);
}

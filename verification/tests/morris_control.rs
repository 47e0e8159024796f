use smartasbrain::game_core::seat::{Key, Opponent};
use smartasbrain::game_core::Difficulty;
use smartasbrain::morris::control::{MorrisControl, START_CURSOR};
use smartasbrain::morris::engine::{Action, Side, Status, POINTS};

/// A table past the picker with two human players.
fn started_two_player() -> MorrisControl {
    let mut g = MorrisControl::new();
    g.handle_key(Key::Enter); // TWO PLAYERS
    g
}

/// A table started on the entry a digit names ('5'..'7' are the duels).
fn started_duel(digit: char) -> MorrisControl {
    let mut g = MorrisControl::new();
    g.handle_key(Key::Char(digit));
    g.handle_key(Key::Enter);
    g
}

fn stones_on_board(g: &MorrisControl, side: Side) -> usize {
    (0..POINTS).filter(|&i| g.state.point(i) == Some(side)).count()
}

#[test]
fn cursor_walks_all_points_with_wraparound() {
    let mut g = started_two_player();
    assert_eq!(g.cursor, START_CURSOR);
    g.cursor = 0;
    g.handle_key(Key::Left);
    assert_eq!(g.cursor, 23, "left wraps past point zero");
    g.handle_key(Key::Right);
    assert_eq!(g.cursor, 0);
    g.handle_key(Key::Up);
    assert_eq!(g.cursor, 23, "up walks the same ring");
    g.handle_key(Key::Down);
    assert_eq!(g.cursor, 0);
    for _ in 0..25 {
        g.handle_key(Key::Char('l'));
    }
    assert_eq!(g.cursor, 1, "24 rights land one past the start");
}

#[test]
fn esc_deselects_without_quitting_and_q_quits() {
    let mut g = started_two_player();
    g.handle_key(Key::Esc);
    assert_eq!(g.selected, None);
    assert!(!g.seat.quit, "esc never quits here");
    g.handle_key(Key::Char('q'));
    assert!(g.seat.quit);
}

#[test]
fn human_places_alternately_via_keyboard() {
    let mut g = started_two_player();
    g.cursor = 4;
    g.handle_key(Key::Enter);
    assert_eq!(g.state.point(4), Some(Side::White));
    assert_eq!(g.state.turn(), Side::Black);
    g.cursor = 19;
    g.handle_key(Key::Char(' '));
    assert_eq!(g.state.point(19), Some(Side::Black));
    assert_eq!(stones_on_board(&g, Side::White), 1);
}

#[test]
fn human_mill_leads_to_keyboard_capture() {
    let mut g = started_two_player();
    // White closes 0-1-2 while black sprinkles 23, 22.
    for at in [0, 23, 1, 22, 2] {
        g.cursor = at;
        g.handle_key(Key::Enter);
    }
    assert!(g.state.removal_pending(), "white closed the top rail mill");
    assert_eq!(g.state.turn(), Side::White);

    // Enter on a non-capturable point is refused silently.
    g.cursor = 0;
    g.handle_key(Key::Enter);
    assert!(g.state.removal_pending(), "own stone is not removable");

    g.cursor = 23;
    g.handle_key(Key::Enter);
    assert!(!g.state.removal_pending());
    assert_eq!(g.state.point(23), None);
    assert_eq!(g.state.last_action(), Some(Action::Remove(23)));
    assert_eq!(g.state.turn(), Side::Black);
}

#[test]
fn setup_menu_blocks_play_until_confirmed() {
    let mut g = MorrisControl::new();
    assert!(g.seat.setup_open);
    g.handle_key(Key::Enter);
    assert!(!g.seat.setup_open);
    assert_eq!(g.seat.opponent, Opponent::Human);
    assert_eq!(g.state.turn(), Side::White);
    assert_eq!(g.state.stones_left(Side::White), 9);
    // Digits jump straight to a row before confirming.
    let mut g = MorrisControl::new();
    g.handle_key(Key::Char('3'));
    g.handle_key(Key::Char(' '));
    assert_eq!(g.seat.opponent, Opponent::Ai(Difficulty::Medium));
    assert!(!g.seat.setup_open);
}

#[test]
fn morris_restart_keeps_settings_while_m_reopens_setup() {
    let mut g = started_two_player();
    g.cursor = 4;
    g.handle_key(Key::Enter);
    assert_eq!(g.state.point(4), Some(Side::White));

    g.handle_key(Key::Char('R'));
    assert!(!g.seat.setup_open);
    assert_eq!(g.seat.opponent, Opponent::Human);
    assert_eq!(g.state.point(4), None, "fresh board after R");
    assert_eq!(g.state.stones_left(Side::White), 9);

    g.handle_key(Key::Char('m'));
    assert!(g.seat.setup_open, "m reopens setup");
    g.handle_key(Key::Char('6')); // AI DUEL - MEDIUM
    g.handle_key(Key::Enter);
    assert_eq!(g.seat.opponent, Opponent::Battle(Difficulty::Medium));
}

#[test]
fn morris_duel_menu_mapping() {
    let g = started_duel('7'); // AI DUEL - HARD
    assert_eq!(g.seat.opponent, Opponent::Battle(Difficulty::Hard));
    assert!(!g.seat.setup_open, "confirming a duel closes setup");
    assert_eq!(g.state.status(), Status::Ongoing);
    assert_eq!(g.state.turn(), Side::White, "white opens every duel");

    let mut g = MorrisControl::new();
    for _ in 0..4 {
        g.handle_key(Key::Down); // AI DUEL - EASY
    }
    g.handle_key(Key::Enter);
    assert_eq!(g.seat.opponent, Opponent::Battle(Difficulty::Easy));
}

#[test]
fn lib_duel_self_play_progresses_or_ends() {
    let mut g = started_duel('5');
    let mut early_stones = 0usize;
    let mut ended = false;
    let mut turns_seen = Vec::new();
    for tick in 0..800 {
        g.tick();
        let stones = (0..POINTS).filter(|&i| g.state.point(i).is_some()).count();
        if tick < 60 {
            early_stones = early_stones.max(stones);
        }
        if !turns_seen.contains(&g.state.turn()) {
            turns_seen.push(g.state.turn());
        }
        if g.state.status() != Status::Ongoing {
            ended = true;
            break;
        }
    }
    assert!(early_stones >= 4 || ended, "placements must start immediately (saw {early_stones})");
    let stones = stones_on_board(&g, Side::White) + stones_on_board(&g, Side::Black);
    assert!(ended || (4..=18).contains(&stones), "board holds {stones} stones without ending");
    assert!(ended || turns_seen.len() == 2, "both duel seats took turns");
}

#[test]
fn duel_input_inert_mid_duel() {
    let mut g = started_duel('5');
    for _ in 0..60 {
        g.tick();
        if g.state.removal_pending()
            || stones_on_board(&g, Side::White) + stones_on_board(&g, Side::Black) >= 2
        {
            break;
        }
    }
    assert!(stones_on_board(&g, Side::White) + stones_on_board(&g, Side::Black) >= 2);

    let snapshot: Vec<Option<Side>> = (0..POINTS).map(|i| g.state.point(i)).collect();
    let cursor_before = g.cursor;
    for key in [
        Key::Enter,
        Key::Char(' '),
        Key::Left,
        Key::Right,
        Key::Up,
        Key::Down,
        Key::Char('h'),
        Key::Char('j'),
        Key::Char('k'),
        Key::Char('l'),
        Key::Char('r'),
        Key::Esc,
    ] {
        g.handle_key(key);
    }
    assert_eq!(
        (0..POINTS).map(|i| g.state.point(i)).collect::<Vec<_>>(),
        snapshot,
        "keys must not touch the board mid-duel"
    );
    g.click_point(12);
    g.restart_button();
    assert_eq!(
        (0..POINTS).map(|i| g.state.point(i)).collect::<Vec<_>>(),
        snapshot,
        "clicks must not touch the board mid-duel"
    );
    assert_eq!(g.cursor, cursor_before, "clicks must not even steer");

    // 'R' restarts the duel on a fresh board, same settings.
    g.handle_key(Key::Char('R'));
    assert_eq!(g.seat.opponent, Opponent::Battle(Difficulty::Easy));
    assert_eq!(g.state.status(), Status::Ongoing);
    assert_eq!(stones_on_board(&g, Side::White), 0, "fresh start after R");

    g.handle_key(Key::Char('r'));
    assert_eq!(g.seat.opponent, Opponent::Battle(Difficulty::Easy));
    g.handle_key(Key::Char('m'));
    assert!(g.seat.setup_open);
}

#[test]
fn vs_ai_full_exchange() {
    let mut g = started_duel('2'); // VS AI - EASY plays black
    assert_eq!(g.seat.opponent, Opponent::Ai(Difficulty::Easy));
    assert_eq!(g.state.turn(), Side::White, "the human opens");

    g.cursor = 4;
    g.handle_key(Key::Enter);
    assert_eq!(g.state.point(4), Some(Side::White));

    for _ in 0..50 {
        if g.state.turn() == Side::White || g.state.status() != Status::Ongoing {
            break;
        }
        g.tick();
    }
    assert_eq!(g.state.turn(), Side::White, "AI replied promptly");
    assert_eq!(g.state.status(), Status::Ongoing);
    assert!(stones_on_board(&g, Side::Black) >= 1, "black answered");
    assert_eq!(stones_on_board(&g, Side::White), 1, "no theft this early");

    // The AI's reply is random, so take the first point it left free.
    g.cursor = (0..24usize).rev().find(|&p| g.state.point(p).is_none()).unwrap();
    g.handle_key(Key::Enter);
    assert_eq!(stones_on_board(&g, Side::White), 2);
    for _ in 0..50 {
        if g.state.turn() == Side::White || g.state.status() != Status::Ongoing {
            break;
        }
        let pre = stones_on_board(&g, Side::White);
        g.handle_key(Key::Enter);
        g.handle_key(Key::Char(' '));
        g.handle_key(Key::Char('r'));
        assert_eq!(stones_on_board(&g, Side::White), pre, "input inert while the AI thinks");
        g.tick();
    }
    assert_eq!(g.state.turn(), Side::White, "AI finished its second reply");
}

#[test]
fn picker_click_starts_the_entry() {
    let mut g = MorrisControl::new();
    g.click_entry(1);
    assert!(!g.seat.setup_open);
    assert_eq!(g.seat.menu_index, 1);
    assert_eq!(g.seat.opponent, Opponent::Ai(Difficulty::Easy));
}

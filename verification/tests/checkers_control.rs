use smartasbrain::checkers::control::{CheckersControl, START_CURSOR};
use smartasbrain::checkers::engine::{Checkers, Side, Status, PC, SIZE};
use smartasbrain::game_core::seat::{Key, Opponent};
use smartasbrain::game_core::Difficulty;

fn sq(r: usize, c: usize) -> usize {
    r * SIZE + c
}

fn key(game: &mut CheckersControl, k: Key) {
    game.handle_key(k);
}

fn board_fingerprint(game: &CheckersControl) -> Vec<Option<(Side, bool)>> {
    (0..SIZE * SIZE)
        .map(|sq| game.state.piece_at(sq).map(|pc: PC| (pc.side, pc.king)))
        .collect()
}

#[test]
fn duel_menu_selection_maps_correctly() {
    for (digit, difficulty) in [
        ('5', Difficulty::Easy),
        ('6', Difficulty::Medium),
        ('7', Difficulty::Hard),
    ] {
        let mut game = CheckersControl::new();
        key(&mut game, Key::Char(digit));
        assert!(!game.seat.setup_open);
        assert_eq!(game.seat.opponent, Opponent::Battle(difficulty));
        assert_eq!(game.state.counts(), (12, 12), "fresh duel board");
    }

    // Navigating onto a duel row and confirming maps the same way.
    let mut game = CheckersControl::new();
    for _ in 0..4 {
        key(&mut game, Key::Down);
    }
    key(&mut game, Key::Enter);
    assert!(!game.seat.setup_open);
    assert_eq!(game.seat.opponent, Opponent::Battle(Difficulty::Easy));
}

#[test]
fn duel_self_play_runs_and_can_end() {
    let mut game = CheckersControl::new();
    key(&mut game, Key::Char('7'));
    assert_eq!(game.seat.opponent, Opponent::Battle(Difficulty::Hard));
    assert_eq!(game.state.counts(), (12, 12));

    // Early ticks mutate the board immediately, White first.
    game.tick();
    assert!(game.last_ai_move.is_some(), "first tick moved for White");
    assert_eq!(game.state.turn(), Side::Black);

    let mut finished = false;
    for _ in 0..2000 {
        game.tick();
        if game.state.status() != Status::Ongoing {
            finished = true;
            break;
        }
    }
    let (white, black) = game.state.counts();
    assert!(
        finished || white + black < 24,
        "duel must capture pieces or reach a result"
    );
    if finished {
        assert!(matches!(game.state.status(), Status::Won(_)));
    }
}

#[test]
fn lib_duel_input_inert() {
    let mut game = CheckersControl::new();
    key(&mut game, Key::Char('6'));
    game.tick();

    let before_board = board_fingerprint(&game);
    let before_counts = game.state.counts();
    let before_turn = game.state.turn();
    let before_last = game.last_ai_move;
    let before_cursor = game.cursor;

    // Select/play, navigation, lowercase restart and esc: all inert.
    key(&mut game, Key::Enter);
    key(&mut game, Key::Char(' '));
    for k in [
        Key::Left,
        Key::Right,
        Key::Up,
        Key::Down,
        Key::Char('h'),
        Key::Char('j'),
        Key::Char('k'),
        Key::Char('l'),
    ] {
        key(&mut game, k);
    }
    key(&mut game, Key::Char('r'));
    key(&mut game, Key::Esc);
    assert!(!game.seat.quit, "esc never quits mid-duel");

    // Clicks on board squares change nothing.
    game.click_square(sq(5, 0));
    game.click_square(sq(2, 1));
    game.restart();

    assert_eq!(board_fingerprint(&game), before_board);
    assert_eq!(game.selected, None);
    assert_eq!(game.cursor, before_cursor);
    assert_eq!(game.state.counts(), before_counts, "'r' must not reset");
    assert_eq!(game.last_ai_move, before_last, "'r' must not reset");
    assert_eq!(game.state.turn(), before_turn, "only tick advances a duel");

    // The machines carry on regardless.
    game.tick();
    if game.state.status() == Status::Ongoing {
        assert_ne!(game.state.turn(), before_turn, "tick drove the next seat");
    }

    // 'm' reopens setup over a freshly reset duel.
    key(&mut game, Key::Char('m'));
    assert!(game.seat.setup_open);
    assert_eq!(game.state.counts(), (12, 12));

    // 'q' from the board quits.
    let mut game = CheckersControl::new();
    key(&mut game, Key::Char('5'));
    key(&mut game, Key::Char('q'));
    assert!(game.seat.quit);
}

#[test]
fn lib_setup_menu_blocks_board_input() {
    let mut game = CheckersControl::new();
    assert!(game.seat.setup_open);

    // Clicking a square must not touch any piece.
    game.click_square(sq(5, 0));
    assert_eq!(game.selected, None);
    assert_eq!(game.state.counts(), (12, 12));
    assert_eq!(game.state.turn(), Side::White);

    // Menu keys navigate without touching the game.
    key(&mut game, Key::Down);
    assert_eq!(game.seat.menu_index, 1);

    key(&mut game, Key::Esc);
    assert!(game.seat.quit, "esc quits from the setup menu");
}

#[test]
fn lib_selecting_vs_ai_then_tick_makes_ai_reply() {
    let mut game = CheckersControl::new();
    key(&mut game, Key::Down);
    key(&mut game, Key::Enter);
    assert!(!game.seat.setup_open);
    assert!(matches!(game.seat.opponent, Opponent::Ai(Difficulty::Easy)));
    assert_eq!(game.ai_side, Side::Black);

    // Human White opens (5,2)->(4,3) via cursor keys.
    key(&mut game, Key::Down);
    key(&mut game, Key::Down);
    key(&mut game, Key::Left);
    key(&mut game, Key::Left);
    key(&mut game, Key::Enter);
    assert_eq!(game.selected, Some(sq(5, 2)));
    key(&mut game, Key::Up);
    key(&mut game, Key::Left);
    key(&mut game, Key::Enter);
    assert_eq!(game.state.turn(), Side::Black);
    assert_eq!(game.last_ai_move, None);

    for _ in 0..200 {
        game.tick();
        if game.last_ai_move.is_some() {
            break;
        }
    }
    assert!(game.last_ai_move.is_some(), "AI replied within 200 ticks");
    assert_eq!(game.state.turn(), Side::White, "back to the human");
}

#[test]
fn lib_human_cannot_move_for_ai() {
    let mut game = CheckersControl::new();
    key(&mut game, Key::Down);
    key(&mut game, Key::Enter);

    // Black king to move with a double jump waiting from (2,3).
    game.state = Checkers::test_position(
        Side::Black,
        &[
            (sq(2, 3), Side::Black, true),
            (sq(3, 4), Side::White, false),
            (sq(3, 6), Side::White, false),
        ],
    );
    game.tick();
    assert_eq!(game.state.chain_from(), Some(sq(4, 5)), "AI opened the chain");
    assert_eq!(game.state.turn(), Side::Black);

    // Park the cursor on the jumping piece and try to hijack the chain.
    key(&mut game, Key::Down);
    key(&mut game, Key::Right);
    assert_eq!(game.cursor, sq(4, 5));
    key(&mut game, Key::Enter);
    key(&mut game, Key::Char(' '));
    assert_eq!(game.selected, None, "AI's piece cannot be selected");
    assert_eq!(game.state.chain_from(), Some(sq(4, 5)));
    assert_eq!(game.state.piece_at(sq(4, 5)).map(|pc| pc.side), Some(Side::Black));
}

#[test]
fn capital_keys_and_two_humans_play_a_move() {
    let mut game = CheckersControl::new();
    key(&mut game, Key::Char('1'));
    assert!(!game.seat.setup_open);
    assert_eq!(game.seat.opponent, Opponent::Human);
    assert_eq!(game.cursor, START_CURSOR);

    // White picks (5,0) by click and moves it to (4,1).
    game.click_square(sq(5, 0));
    assert_eq!(game.selected, Some(sq(5, 0)));
    game.click_square(sq(4, 1));
    assert_eq!(game.selected, None);
    assert_eq!(game.state.turn(), Side::Black);
    assert_eq!(game.state.piece_at(sq(4, 1)).map(|pc| pc.side), Some(Side::White));

    // A Black piece cannot be moved to an illegal square; the pick stays.
    game.click_square(sq(2, 1));
    game.click_square(sq(4, 1));
    assert_eq!(game.selected, Some(sq(2, 1)));
    key(&mut game, Key::Esc);
    assert_eq!(game.selected, None);
    assert!(!game.seat.quit);

    // Capital M opens the picker over a fresh board, capital Q quits.
    key(&mut game, Key::Char('M'));
    assert!(game.seat.setup_open);
    assert_eq!(game.state.counts(), (12, 12));
    key(&mut game, Key::Char('Q'));
    assert!(game.seat.quit);
}

#[test]
fn cursor_stops_at_the_board_edge() {
    let mut game = CheckersControl::new();
    key(&mut game, Key::Enter);
    for _ in 0..10 {
        key(&mut game, Key::Up);
    }
    assert_eq!(game.cursor, sq(0, 4));
    for _ in 0..10 {
        key(&mut game, Key::Char('l'));
    }
    assert_eq!(game.cursor, sq(0, 7));
}

use smartasbrain::chess::control::{ChessControl, START_CURSOR};
use smartasbrain::chess::engine::{sq, Kind, Piece, Side, Status};
use smartasbrain::game_core::seat::{Key, Opponent};
use smartasbrain::game_core::Difficulty;

#[test]
fn select_then_play_via_keys_flips_turn() {
    let mut game = ChessControl::new();
    game.seat.setup_open = false; // exercise board input, not the setup menu

    game.cursor = sq(6, 4); // e2
    game.handle_key(Key::Enter);
    assert_eq!(game.selected, Some(sq(6, 4)));

    game.handle_key(Key::Up);
    game.handle_key(Key::Up);
    assert_eq!(game.cursor, sq(4, 4)); // e4

    game.handle_key(Key::Enter);
    assert_eq!(game.selected, None);
    assert_eq!(game.engine.turn(), Side::Black);
    assert_eq!(game.engine.board()[sq(4, 4)], Some(Piece { side: Side::White, kind: Kind::Pawn }));
    assert_eq!(game.engine.board()[sq(6, 4)], None);
}

#[test]
fn mouse_click_selects_and_moves() {
    let mut game = ChessControl::new();
    game.seat.setup_open = false;
    game.click_square(sq(6, 4));
    assert_eq!(game.selected, Some(sq(6, 4)));
    game.click_square(sq(4, 4));
    assert_eq!(game.selected, None);
    assert_eq!(game.engine.turn(), Side::Black);
}

#[test]
fn ui_setup_menu_blocks_board_input() {
    let mut game = ChessControl::new();
    assert!(game.seat.setup_open);
    game.click_square(sq(6, 4));
    assert_eq!(game.selected, None);
    assert!(game.seat.setup_open, "menu must stay open");
    assert_eq!(game.engine.turn(), Side::White);
    assert!(game.engine.board()[sq(6, 4)].is_some(), "board untouched");

    game.handle_key(Key::Down);
    game.handle_key(Key::Up);
    assert_eq!(game.cursor, START_CURSOR);
}

#[test]
fn selecting_vs_ai_easy_then_ticks_makes_ai_reply() {
    let mut game = ChessControl::new();
    game.handle_key(Key::Down); // highlight "VS AI - EASY"
    game.handle_key(Key::Enter);
    assert!(!game.seat.setup_open);
    assert_eq!(game.seat.opponent, Opponent::Ai(Difficulty::Easy));
    assert_eq!(game.ai_side, Side::Black);
    assert_eq!(game.engine.turn(), Side::White);

    game.handle_key(Key::Enter);
    game.handle_key(Key::Up);
    game.handle_key(Key::Up);
    game.handle_key(Key::Enter);
    assert_eq!(game.engine.turn(), Side::Black);

    for _ in 0..200 {
        game.tick();
        if game.engine.turn() == Side::White {
            break;
        }
    }
    assert_eq!(game.engine.turn(), Side::White, "AI replied");
    assert!(game.last_ai_move.is_some());
    let (from, to) = game.last_ai_move.unwrap();
    assert!(game.engine.board()[to].is_some());
    assert_eq!(game.engine.last_move(), Some((from, to)));
}

#[test]
fn ui_human_cannot_move_for_ai() {
    let mut game = ChessControl::new();
    game.handle_key(Key::Char('2')); // jump-select VS AI - EASY
    game.handle_key(Key::Enter);
    assert!(matches!(game.seat.opponent, Opponent::Ai(Difficulty::Easy)));

    game.handle_key(Key::Enter);
    game.handle_key(Key::Up);
    game.handle_key(Key::Up);
    game.handle_key(Key::Enter);
    assert_eq!(game.engine.turn(), Side::Black);

    game.cursor = sq(1, 4);
    game.handle_key(Key::Enter);
    assert_eq!(game.selected, None);
    assert_eq!(game.engine.turn(), Side::Black);

    game.click_square(sq(1, 3));
    assert_eq!(game.selected, None);
    assert_eq!(game.engine.turn(), Side::Black);
    assert!(game.engine.board()[sq(1, 3)].is_some(), "d7 pawn intact");
}

#[test]
fn duel_menu_rows_selectable() {
    let mut game = ChessControl::new();
    for digit in '5'..'8' {
        game.handle_key(Key::Char(digit));
        assert_eq!(
            game.seat.menu_index,
            digit.to_digit(10).unwrap() as usize - 1,
            "digit {digit} jumps to its row"
        );
    }
    assert_eq!(game.seat.menu_index, 6);
    game.handle_key(Key::Enter); // confirm AI DUEL - HARD
    assert!(!game.seat.setup_open);
    assert_eq!(game.seat.opponent, Opponent::Battle(Difficulty::Hard));
}

#[test]
fn ui_duel_self_play_progresses_or_ends() {
    let mut game = ChessControl::new();
    game.handle_key(Key::Char('7')); // AI DUEL - HARD
    game.handle_key(Key::Enter);
    assert!(matches!(game.seat.opponent, Opponent::Battle(Difficulty::Hard)));
    assert_eq!(game.engine.turn(), Side::White);

    let mut changes = 0usize;
    let mut prev = *game.engine.board();
    let started = std::time::Instant::now();
    for frame in 0..400usize {
        game.tick();
        if game.engine.status() != Status::Ongoing {
            assert!(matches!(game.engine.status(), Status::Won(_) | Status::Stalemate));
            break;
        }
        if game.engine.board() != &prev {
            changes += 1;
            prev = *game.engine.board();
        }
        if frame + 1 == 20 {
            assert!(changes > 0, "duel produced no moves in 20 ticks");
        }
        if started.elapsed() > std::time::Duration::from_secs(15) {
            break;
        }
    }
    assert!(changes > 0, "hard duel must keep playing or finish");
}

#[test]
fn ui_duel_input_inert() {
    let mut game = ChessControl::new();
    game.handle_key(Key::Char('5')); // AI DUEL - EASY
    game.handle_key(Key::Enter);
    assert!(!game.seat.setup_open);
    game.tick();
    assert!(game.last_ai_move.is_some(), "white engine opened the duel");
    let snapshot = *game.engine.board();

    game.cursor = sq(1, 4); // e7, a black pawn
    game.handle_key(Key::Enter); // select attempt
    game.handle_key(Key::Up); // cursor drift attempt
    game.handle_key(Key::Char(' ')); // play attempt
    game.handle_key(Key::Char('r')); // must NOT reset mid-duel
    assert_eq!(game.cursor, sq(1, 4), "cursor frozen while spectating");
    assert_eq!(game.engine.board(), &snapshot, "'r' must not reset a duel");

    // Clicking a board square selects nothing and moves nothing.
    game.click_square(sq(1, 3));
    game.restart_button();
    assert_eq!(game.selected, None);
    assert_eq!(game.engine.board(), &snapshot, "click left board alone");

    // The allowed spectate keys still respond.
    game.handle_key(Key::Char('R'));
    assert_eq!(game.engine.last_move(), None, "'R' restarts the duel");
    assert_eq!(game.engine.status(), Status::Ongoing);
    game.handle_key(Key::Char('m'));
    assert!(game.seat.setup_open, "'m' reopens setup");
}

#[test]
fn esc_drops_the_pick_then_quits_and_reselects_own_pieces() {
    let mut game = ChessControl::new();
    game.handle_key(Key::Enter); // two players
    game.click_square(sq(6, 4));
    game.click_square(sq(6, 3)); // another own pawn: picked instead
    assert_eq!(game.selected, Some(sq(6, 3)));
    game.click_square(sq(6, 3)); // the same own piece stays picked
    assert_eq!(game.selected, Some(sq(6, 3)));
    game.handle_key(Key::Esc);
    assert_eq!(game.selected, None);
    assert!(!game.seat.quit);
    game.handle_key(Key::Esc);
    assert!(game.seat.quit, "esc with nothing picked quits");
}

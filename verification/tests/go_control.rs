use smartasbrain::game_core::seat::{Key, Opponent};
use smartasbrain::game_core::Difficulty;
use smartasbrain::go::control::{GoControl, CENTRE};
use smartasbrain::go::engine::Player;

fn empty(game: &GoControl) -> bool {
    game.state.board().iter().all(|&c| c == Player::Empty)
}

#[test]
fn go_setup_menu_blocks_board_input() {
    let mut game = GoControl::new();
    assert!(game.seat.setup_open);

    // Keys that would move the cursor / drop a stone in play.
    game.handle_key(Key::Right);
    game.handle_key(Key::Enter);
    assert!(!game.seat.setup_open, "Enter confirmed the highlighted entry");
    assert_eq!(game.seat.opponent, Opponent::Human);
    assert!(empty(&game), "no stone may be placed while the menu is open");

    // With the picker up, board clicks do nothing.
    game.handle_key(Key::Char('m'));
    assert!(game.seat.setup_open);
    game.click_point(10);
    assert!(empty(&game));
    assert!(game.seat.setup_open);
}

#[test]
fn go_selecting_vs_ai_then_tick_makes_ai_reply() {
    let mut game = GoControl::new();
    game.handle_key(Key::Down); // VS AI - EASY
    game.handle_key(Key::Enter);
    assert!(!game.seat.setup_open);
    assert_eq!(game.seat.opponent, Opponent::Ai(Difficulty::Easy));
    assert_eq!(game.ai_side, Player::White);

    game.handle_key(Key::Enter); // human Black opens at centre
    assert_eq!(game.state.board()[CENTRE], Player::Black);
    assert_eq!(game.state.to_move(), Player::White);

    game.tick();
    let whites = game.state.board().iter().filter(|&&c| c == Player::White).count();
    assert_eq!(whites, 1, "the AI answered with exactly one stone");
    assert_eq!(game.state.to_move(), Player::Black);
    assert_eq!(game.last_ai_move.map(|idx| game.state.board()[idx]), Some(Player::White));
}

#[test]
fn human_cannot_play_for_ai() {
    let mut game = GoControl::new();
    game.handle_key(Key::Down);
    game.handle_key(Key::Enter); // vs AI easy

    game.handle_key(Key::Enter); // black centre; now AI's turn
    assert!(game.ai_to_move());
    let before = game.state.board().to_vec();

    game.handle_key(Key::Enter); // ignored
    game.handle_key(Key::Char(' ')); // ignored
    game.handle_key(Key::Char('p')); // no pass-by-proxy either
    assert_eq!(game.state.board(), before.as_slice());
    assert_eq!(game.state.to_move(), Player::White);

    // Board clicks are equally inert during the AI's turn.
    game.click_point(0);
    assert_eq!(game.state.board(), before.as_slice());

    game.tick(); // then the AI does get to move
    assert_eq!(game.state.to_move(), Player::Black);
}

#[test]
fn go_duel_menu_mapping() {
    let mut game = GoControl::new();
    game.handle_key(Key::Char('7')); // AI DUEL - HARD
    assert_eq!(game.seat.opponent, Opponent::Battle(Difficulty::Hard));
    assert!(!game.seat.setup_open);

    // A stray confirm mid-duel places nothing and stays closed.
    game.handle_key(Key::Enter);
    assert!(!game.seat.setup_open);
    assert!(empty(&game), "no stone may appear from a leftover Enter");
}

#[test]
fn duel_self_play_progresses() {
    let mut game = GoControl::new();
    game.handle_key(Key::Char('5')); // AI DUEL - EASY
    assert_eq!(game.seat.opponent, Opponent::Battle(Difficulty::Easy));
    assert!(!game.seat.setup_open);

    let mut saw_black = false;
    let mut saw_white = false;
    let mut settled = false;
    for _ in 0..400 {
        game.tick(); // Black opens; both seats are automated
        saw_black |= game.state.board().contains(&Player::Black);
        saw_white |= game.state.board().contains(&Player::White);
        settled |= game.state.pass_count() > 0 || game.state.is_over();
        if game.state.is_over() {
            break;
        }
    }
    assert!(saw_black && saw_white, "both colours laid stones");
    assert!(settled, "the duel must pass out or finish within 400 plies");
}

#[test]
fn go_duel_input_inert() {
    let mut game = GoControl::new();
    game.handle_key(Key::Char('5')); // AI DUEL - EASY
    game.tick(); // Black opens

    let board = game.state.board().to_vec();
    let turn = game.state.to_move();

    game.handle_key(Key::Enter); // would place a stone
    game.handle_key(Key::Char(' ')); // would place a stone
    game.handle_key(Key::Char('p')); // would pass
    game.handle_key(Key::Char('r')); // lowercase: no restart mid-duel
    game.click_point(0); // board click ignored
    game.pass_button(); // button clicks ignored
    game.restart_button();

    assert_eq!(game.state.board(), board.as_slice(), "zero board delta");
    assert_eq!(game.state.to_move(), turn, "turn unchanged");
    assert_eq!(game.state.pass_count(), 0, "nothing passed by proxy");
}

#[test]
fn m_reopens_the_picker_on_the_current_entry_and_esc_quits() {
    let mut game = GoControl::new();
    game.handle_key(Key::Char('3')); // VS AI - MEDIUM
    assert_eq!(game.seat.opponent, Opponent::Ai(Difficulty::Medium));
    game.handle_key(Key::Char('M'));
    assert!(game.seat.setup_open);
    assert_eq!(game.seat.menu_index, 2, "the picker opens on the current entry");
    game.click_entry(0);
    assert!(!game.seat.setup_open);
    assert_eq!(game.seat.opponent, Opponent::Human);
    game.handle_key(Key::Char('P'));
    assert_eq!(game.state.pass_count(), 1, "capital P passes too");
    game.handle_key(Key::Esc);
    assert!(game.seat.quit, "esc quits from the board");
}

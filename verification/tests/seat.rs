use smartasbrain::game_core::seat::{opponent_for, Common, Key, Opponent, Seat, SETUP_ITEMS};
use smartasbrain::game_core::Difficulty;

#[test]
fn picker_entries_map_to_opponents() {
    assert_eq!(opponent_for(0), Some(Opponent::Human));
    assert_eq!(opponent_for(1), Some(Opponent::Ai(Difficulty::Easy)));
    assert_eq!(opponent_for(3), Some(Opponent::Ai(Difficulty::Hard)));
    assert_eq!(opponent_for(4), Some(Opponent::Battle(Difficulty::Easy)));
    assert_eq!(opponent_for(6), Some(Opponent::Battle(Difficulty::Hard)));
    assert_eq!(opponent_for(SETUP_ITEMS), None);
}

#[test]
fn picker_wraps_and_digits_move_the_highlight() {
    let mut s = Seat::new();
    assert_eq!(s.key(Key::Up), Common::Done);
    assert_eq!(s.menu_index, SETUP_ITEMS - 1, "up from the top wraps");
    assert_eq!(s.key(Key::Char('j')), Common::Done);
    assert_eq!(s.menu_index, 0);
    assert_eq!(s.key(Key::Char('4')), Common::Done);
    assert_eq!(s.menu_index, 3);
    assert_eq!(s.key(Key::Char('8')), Common::Done, "no eighth entry");
    assert_eq!(s.menu_index, 3);
    assert!(s.setup_open);
    assert_eq!(s.key(Key::Char(' ')), Common::Start);
    assert!(!s.setup_open);
    assert_eq!(s.opponent, Opponent::Ai(Difficulty::Hard));
    assert_eq!(s.difficulty(), Some(Difficulty::Hard));
}

#[test]
fn board_keys_pass_through_and_shared_keys_do_not() {
    let mut s = Seat::new();
    s.key(Key::Enter);
    assert_eq!(s.key(Key::Left), Common::Board(Key::Left));
    assert_eq!(s.key(Key::Char('R')), Common::Board(Key::Char('R')));
    assert_eq!(s.key(Key::Char('m')), Common::Menu);
    assert!(s.setup_open);
    assert_eq!(s.key(Key::Esc), Common::Done);
    assert!(s.quit, "esc on the picker quits");
}

#[test]
fn duels_swallow_board_keys_but_restart() {
    let mut s = Seat::new();
    assert_eq!(s.pick(5), Common::Start);
    assert!(s.is_duel_now());
    assert_eq!(s.key(Key::Enter), Common::Done);
    assert_eq!(s.key(Key::Char('R')), Common::Restart);
    assert!(s.ai_to_move(true, false), "a duel always has a computer to move");
    assert!(!s.ai_to_move(false, true), "not once the game is over");
    assert_eq!(s.key(Key::Char('q')), Common::Done);
    assert!(s.quit);
    assert_eq!(s.pick(9), Common::Done, "no such entry");
}

use smartasbrain::dots::control::DotsControl;
use smartasbrain::dots::engine::{h_id, Side, EDGES};
use smartasbrain::game_core::seat::{Key, Opponent};
use smartasbrain::game_core::Difficulty;

fn started_two_player() -> DotsControl {
    let mut g = DotsControl::new();
    g.handle_key(Key::Enter);
    g
}

fn key(g: &mut DotsControl, k: Key) {
    g.handle_key(k);
}

fn count_claimed(g: &DotsControl) -> usize {
    (0..EDGES).filter(|&e| g.engine.claimed(e).is_some()).count()
}

#[test]
fn enter_claims_edges_and_alternates_turns() {
    let mut g = started_two_player();
    key(&mut g, Key::Enter); // claims edge 0 (White)
    assert_eq!(g.engine.turn(), Side::Black);
    assert_eq!(g.engine.claimed(0), Some(Side::White));
    key(&mut g, Key::Right);
    key(&mut g, Key::Enter); // claims edge 1 (Black)
    assert_eq!(g.engine.turn(), Side::White);
    assert_eq!(g.engine.claimed(1), Some(Side::Black));
}

#[test]
fn dots_selecting_vs_ai_then_ticks_makes_ai_reply() {
    let mut g = DotsControl::new();
    key(&mut g, Key::Down);
    key(&mut g, Key::Enter);
    assert_eq!(g.seat.opponent, Opponent::Ai(Difficulty::Easy));
    // Human (white) claims the cursor's edge to hand the seat over.
    key(&mut g, Key::Enter);
    assert_eq!(g.engine.turn(), Side::Black);
    let claimed_before = count_claimed(&g);
    for _ in 0..100 {
        g.tick();
        if count_claimed(&g) > claimed_before {
            break;
        }
    }
    assert!(count_claimed(&g) > claimed_before, "AI must answer within 100 ticks");
}

#[test]
fn dots_duel_menu_mapping_and_self_play_completes() {
    let mut g = DotsControl::new();
    key(&mut g, Key::Char('5')); // AI DUEL - EASY
    key(&mut g, Key::Enter);
    assert_eq!(g.seat.opponent, Opponent::Battle(Difficulty::Easy));

    let mut hard = DotsControl::new();
    key(&mut hard, Key::Char('7'));
    key(&mut hard, Key::Enter);
    assert_eq!(hard.seat.opponent, Opponent::Battle(Difficulty::Hard));

    for _ in 0..2000 {
        g.tick();
        if !g.engine.status().is_ongoing() {
            break;
        }
    }
    assert!(!g.engine.status().is_ongoing(), "duel must finish within 2000 ticks");
}

#[test]
fn dots_duel_input_is_inert_except_keeper_keys() {
    let mut g = DotsControl::new();
    key(&mut g, Key::Char('5'));
    key(&mut g, Key::Enter);
    for _ in 0..10 {
        g.tick();
    }
    let snapshot = count_claimed(&g);
    let turn_before = g.engine.turn();
    for k in [Key::Enter, Key::Char(' '), Key::Char('r')] {
        key(&mut g, k);
    }
    g.click_edge(h_id(4, 3));
    g.restart();
    assert_eq!(count_claimed(&g), snapshot, "board frozen to input");
    assert_eq!(g.engine.turn(), turn_before);
    key(&mut g, Key::Char('R'));
    assert_eq!(count_claimed(&g), 0, "R restarts fresh");
    key(&mut g, Key::Char('m'));
    assert!(g.seat.setup_open);
}

#[test]
fn mouse_click_claims_an_edge_via_hit_test() {
    let mut g = started_two_player();
    g.click_edge(h_id(0, 0));
    assert_eq!(g.engine.claimed(h_id(0, 0)), Some(Side::White));
    assert_eq!(g.cursor, Some(h_id(0, 0)));
}

#[test]
fn cursor_skips_claimed_edges_and_wraps() {
    let mut g = started_two_player();
    key(&mut g, Key::Enter); // edge 0 claimed
    key(&mut g, Key::Left);
    assert_eq!(g.cursor, Some(EDGES - 1), "nothing open before 0: wrap to the last");
    key(&mut g, Key::Char('j'));
    assert_eq!(g.cursor, Some(1), "past the end: wrap to the first open edge");
    // A claimed edge under the cursor is not claimed again.
    g.cursor = Some(0);
    let turn = g.engine.turn();
    key(&mut g, Key::Char(' '));
    assert_eq!(g.engine.turn(), turn);
    assert_eq!(count_claimed(&g), 1);
}

use smartasbrain::backgammon::ai::step;
use smartasbrain::backgammon::engine::{Backgammon, Dest, Phase, Side, BAR};
use smartasbrain::game_core::Difficulty;

fn start() -> [i8; 24] {
    *Backgammon::new().points()
}

fn staged(points: [i8; 24], bar: (u8, u8), off: (u8, u8), turn: Side, d1: u8, d2: u8) -> Backgammon {
    let mut g = Backgammon::position(points, bar, off, turn);
    g.roll_with(d1, d2);
    g
}

#[test]
fn start_layout_matches_spec_and_pips_are_equal() {
    let g = Backgammon::new();
    assert_eq!(g.points()[0], 2);
    assert_eq!(g.points()[5], -5);
    assert_eq!(g.points()[7], -3);
    assert_eq!(g.points()[11], 5);
    assert_eq!(g.points()[12], -5);
    assert_eq!(g.points()[16], 3);
    assert_eq!(g.points()[18], 5);
    assert_eq!(g.points()[23], -2);
    assert_eq!(g.pip(Side::White), 167);
    assert_eq!(g.pip(Side::Black), 167);
    assert_eq!(g.turn(), Side::Black);
    assert_eq!(g.phase(), Phase::Roll);
}

#[test]
fn blots_hit_to_correct_bar() {
    // White blot at 3; black checker at 7 rolls a 4 and lands on it.
    let mut p = start();
    p[3] = 1;
    p[7] += 1; // now -2, still black
    let mut g = staged(p, (0, 0), (0, 0), Side::Black, 4, 4);
    let dests = g.destinations(7);
    assert!(dests.contains(&(Dest::Point(3), 4)), "expected hit available: {dests:?}");
    g.move_checker(7, Dest::Point(3)).unwrap();
    assert_eq!(g.bar().0, 1, "white blot sent to white bar");
    assert_eq!(g.points()[3], -1);
}

#[test]
fn blocked_destination_excluded() {
    let mut p = start();
    p[2] = -2; // white cannot land here
    let g = staged(p, (0, 0), (0, 0), Side::White, 1, 2);
    let dests = g.destinations(0);
    assert!(dests.contains(&(Dest::Point(1), 1)));
    assert!(!dests.iter().any(|(d, _)| *d == Dest::Point(2)));
}

#[test]
fn bar_forces_entry_only_sources() {
    let mut g = staged(start(), (1, 0), (0, 0), Side::White, 3, 5);
    assert_eq!(g.movable(), vec![BAR], "bar must be sole source");
    assert!(g.move_checker(11, Dest::Point(14)).is_err());
    g.move_checker(BAR, Dest::Point(2)).unwrap(); // die 3 enters at 3-1
    assert_eq!(g.bar().0, 0);
    assert_eq!(g.points()[2], 1);
}

#[test]
fn entering_blocked_point_excluded() {
    // entry targets: die 6 -> point 5 (blocked), die 3 -> point 2 (open)
    let g = staged(start(), (1, 0), (0, 0), Side::White, 6, 3);
    let dests = g.destinations(BAR);
    assert!(!dests.iter().any(|(d, _)| *d == Dest::Point(5)));
    assert_eq!(dests, vec![(Dest::Point(2), 3)]);
}

#[test]
fn exact_bear_off_works() {
    let mut p = [0i8; 24];
    p[20] = 2;
    // white: 20 + 4 = 24 -> exact off
    let mut g = staged(p, (0, 0), (13, 0), Side::White, 4, 2);
    let dests = g.destinations(20);
    assert!(dests.contains(&(Dest::Off, 4)));
    g.move_checker(20, Dest::Off).unwrap();
    assert_eq!(g.off().0, 14);
    assert_eq!(g.points()[20], 1);
}

#[test]
fn overshoot_bear_off_only_from_furthest_checker() {
    let mut p = [0i8; 24];
    p[19] = 1; // lower than 21
    p[21] = 1; // highest white checker
    let g = staged(p, (0, 0), (13, 0), Side::White, 5, 5);
    // From 19 with die 5: 24-19=5 — exact is always fine.
    assert!(g.destinations(19).contains(&(Dest::Off, 5)));
    // From 21 with die 5: overshoot (needs 3), allowed since 21 is furthest.
    assert!(g.destinations(21).contains(&(Dest::Off, 5)));
    // Now make 21 not furthest by adding a checker at 22.
    p[22] = 1;
    let g = staged(p, (0, 0), (12, 0), Side::White, 5, 5);
    assert!(
        !g.destinations(21).contains(&(Dest::Off, 5)),
        "overshoot must be reserved for the foremost checker"
    );
    assert!(g.destinations(22).contains(&(Dest::Off, 5)));
}

#[test]
fn doubles_yield_four_entries_and_four_moves() {
    let mut g = Backgammon::new();
    g.roll_with(3, 3);
    assert_eq!(g.left(), &[3, 3, 3, 3]);
    for _ in 0..4 {
        let m = g.movable();
        assert!(!m.is_empty());
        let src = m[0];
        let (dest, _) = g.destinations(src)[0];
        g.move_checker(src, dest).unwrap();
    }
    assert!(g.left().is_empty());
    assert_eq!(g.phase(), Phase::Roll);
    assert_eq!(g.turn(), Side::White, "turn flipped after four plays");
}

#[test]
fn winner_when_fifteen_off() {
    let mut p = [0i8; 24];
    p[23] = 1;
    let mut g = staged(p, (0, 0), (14, 0), Side::White, 1, 1);
    g.move_checker(23, Dest::Off).unwrap();
    assert_eq!(g.winner(), Some(Side::White));
    assert_eq!(g.phase(), Phase::GameOver);
    assert!(g.movable().is_empty());
    assert!(!g.roll(), "roll refused after game over");
}

#[test]
fn auto_pass_when_no_legal_steps() {
    // Black checkers at 6 (home edge) and 10 (outside home, so no bear-off).
    // White pairs block every downward landing square for dice 5 and 3.
    let mut p = [0i8; 24];
    p[6] = -1;
    p[10] = -1;
    for idx in [1usize, 3, 5, 7] {
        p[idx] = 2;
    }
    let g = staged(p, (0, 0), (0, 0), Side::Black, 5, 3);
    assert_eq!(g.phase(), Phase::Roll, "auto-passed");
    assert_eq!(g.turn(), Side::White, "handed to opponent");
    assert!(g.left().is_empty());
}

#[test]
fn move_checker_rejects_illegal_dest() {
    let mut g = Backgammon::new();
    g.roll_with(1, 2);
    // Not your turn pieces / wrong direction: black moving upward is illegal.
    assert!(g.move_checker(12, Dest::Point(13)).is_err());
    // Off while not all home is illegal.
    assert!(g.move_checker(23, Dest::Off).is_err());
    // Point too far for the dice from a real source:
    assert!(g.move_checker(23, Dest::Point(15)).is_err());
    assert_eq!(g.phase(), Phase::Move);
}

#[test]
fn landing_on_own_blot_stacks_instead_of_hitting_itself() {
    // Black owns a lone blot on 18; a bar checker re-enters right onto it.
    let mut p = start();
    p[18] = -1;
    let mut g = staged(p, (0, 1), (0, 0), Side::Black, 6, 3); // die 6 enters at 24-6 = 18
    assert!(g.destinations(BAR).contains(&(Dest::Point(18), 6)));
    g.move_checker(BAR, Dest::Point(18)).unwrap();
    assert_eq!(g.points()[18], -2, "own blot becomes a made point");
    assert_eq!(g.bar(), (0, 0), "no self-hitting");
    assert_eq!(g.left(), &[3]);

    // Same rule mid-board: white moving onto its own lone checker.
    let mut p = start();
    p[16] = 4;
    p[19] = 1;
    let mut g = staged(p, (0, 0), (0, 0), Side::White, 3, 5);
    g.move_checker(16, Dest::Point(19)).unwrap();
    assert_eq!(g.points()[19], 2);
    assert_eq!(g.bar(), (0, 0));
}

#[test]
fn playing_consumes_one_die_entry() {
    let mut g = Backgammon::new();
    g.roll_with(2, 5);
    assert_eq!(g.left().len(), 2);
    g.move_checker(23, Dest::Point(21)).unwrap(); // consumes a 2
    assert_eq!(g.left(), &[5]);
    assert_eq!(g.dice(), [2, 5]);
}

#[test]
fn move_checker_reports_each_error() {
    let mut g = Backgammon::new();
    assert_eq!(g.move_checker(0, Dest::Point(1)), Err("not in move phase"));
    g.roll_with(1, 2);
    assert_eq!(g.move_checker(BAR + 1, Dest::Point(1)), Err("bad source slot"));
    assert_eq!(g.move_checker(BAR, Dest::Point(1)), Err("no checker on your bar"));
    assert_eq!(g.move_checker(12, Dest::Point(13)), Err("illegal destination"));
}

#[test]
fn roll_enters_move_phase_with_die_values() {
    let mut g = Backgammon::new();
    assert!(g.roll());
    let [d1, d2] = g.dice();
    assert!((1..=6).contains(&d1) && (1..=6).contains(&d2));
    assert!(!g.roll(), "a second roll is refused mid-turn");
}

#[test]
fn ai_steps_are_always_legal() {
    for seed in 1..=3u32 {
        let mut g = Backgammon::new();
        let mut applied = 0usize;
        for i in 0..2000u32 {
            match g.phase() {
                Phase::Roll => {
                    let d1 = ((i + seed) % 6) as u8 + 1;
                    let d2 = ((i * 3 + 1) % 6) as u8 + 1;
                    g.roll_with(d1, d2);
                }
                Phase::Move => {
                    let Some((src, dest)) = step(&g, Difficulty::Easy) else {
                        break;
                    };
                    assert!(
                        g.move_checker(src, dest).is_ok(),
                        "seed {seed} step {i}: {src} -> {dest:?} must be legal"
                    );
                    applied += 1;
                }
                Phase::GameOver => break,
            }
        }
        assert!(applied > 0, "seed {seed}: AI never moved");
    }
}

#[test]
fn hard_beats_greedy_on_obvious_bearoff() {
    let mut pts = [0i8; 24];
    pts[20] = 3;
    pts[21] = 2;
    let run = |difficulty| {
        let mut g = staged(pts, (0, 0), (10, 0), Side::White, 4, 3);
        while g.phase() == Phase::Move {
            let Some((src, dest)) = step(&g, difficulty) else {
                break;
            };
            assert_eq!(dest, Dest::Off, "must bear off instead of shuffling inside: {src} -> {dest:?}");
            assert!(g.move_checker(src, dest).is_ok());
        }
        g.off().0
    };
    let hard_off = run(Difficulty::Hard);
    let medium_off = run(Difficulty::Medium);
    assert_eq!(hard_off, 12, "both dice must bear off under Hard");
    assert!(hard_off >= medium_off, "Hard never does worse than Medium");
}

#[test]
fn easy_returns_something_when_moves_exist() {
    for _ in 0..32 {
        let mut g = Backgammon::new();
        g.roll_with(3, 1);
        assert!(!g.movable().is_empty(), "start position has black moves");
        assert!(step(&g, Difficulty::Easy).is_some());
        assert!(step(&g, Difficulty::Medium).is_some());
        assert!(step(&g, Difficulty::Hard).is_some());
    }
}

use smartasbrain::checkers::ai::{best_move, pick_from_order};
use smartasbrain::checkers::engine::{Checkers, Side, Status, PC, SIZE};
use smartasbrain::game_core::Difficulty;

fn sq(r: usize, c: usize) -> usize {
    r * SIZE + c
}

fn man(side: Side) -> Option<PC> {
    Some(PC { side, king: false })
}

fn king(side: Side) -> Option<PC> {
    Some(PC { side, king: true })
}

fn pos(turn: Side, pieces: &[(usize, Side, bool)]) -> Checkers {
    Checkers::test_position(turn, pieces)
}

#[test]
fn initial_counts_12_v_12() {
    let g = Checkers::new();
    assert_eq!(g.counts(), (12, 12));
    assert_eq!(g.turn(), Side::White);
    assert_eq!(g.status(), Status::Ongoing);
    assert_eq!(g.chain_from(), None);
    assert_eq!(g.piece_at(sq(0, 1)), man(Side::Black));
    assert_eq!(g.piece_at(sq(7, 6)), man(Side::White));
    assert_eq!(g.piece_at(sq(0, 0)), None, "light square is never played");
}

#[test]
fn plain_move_refused_while_any_jump_exists() {
    let mut g = pos(
        Side::White,
        &[
            (sq(5, 2), Side::White, false),
            (sq(5, 6), Side::White, false),
            (sq(4, 3), Side::Black, false),
        ],
    );
    assert!(g.legal_targets(sq(5, 6)).is_empty());
    assert!(!g.play(sq(5, 6), sq(4, 5)));
    assert!(!g.play(sq(5, 2), sq(4, 1)));
    assert_eq!(g.piece_at(sq(5, 2)), man(Side::White), "board untouched");
    assert_eq!(g.turn(), Side::White);
    assert!(g.play(sq(5, 2), sq(3, 4)), "the forced jump goes through");
}

#[test]
fn multi_jump_chain_keeps_turn_until_exhausted() {
    let mut g = pos(
        Side::White,
        &[
            (sq(5, 2), Side::White, false),
            (sq(4, 3), Side::Black, false),
            (sq(2, 3), Side::Black, false),
        ],
    );
    assert_eq!(g.legal_targets(sq(5, 2)), vec![sq(3, 4)]);
    assert!(g.play(sq(5, 2), sq(3, 4)));
    assert_eq!(g.piece_at(sq(4, 3)), None, "first victim removed");
    assert_eq!(g.turn(), Side::White, "chain keeps the turn");
    assert_eq!(g.chain_from(), Some(sq(3, 4)));
    assert_eq!(g.last_move(), Some((sq(5, 2), sq(3, 4))));

    assert_eq!(g.legal_targets(sq(3, 4)), vec![sq(1, 2)]);
    assert!(g.play(sq(3, 4), sq(1, 2)));
    assert_eq!(g.piece_at(sq(2, 3)), None, "second victim removed");
    assert_eq!(g.turn(), Side::Black, "chain done, turn flips");
    assert_eq!(g.chain_from(), None);
    assert_eq!(g.counts(), (1, 0));
    assert_eq!(g.status(), Status::Won(Side::White));
}

#[test]
fn crowning_ends_turn_even_if_more_jumps_exist() {
    let mut g = pos(
        Side::White,
        &[
            (sq(2, 3), Side::White, false),
            (sq(1, 4), Side::Black, false),
            (sq(1, 6), Side::Black, false),
        ],
    );
    assert_eq!(g.legal_targets(sq(2, 3)), vec![sq(0, 5)]);
    assert!(g.play(sq(2, 3), sq(0, 5)));
    assert_eq!(g.piece_at(sq(0, 5)), king(Side::White), "crowned on the last row");
    assert_eq!(g.turn(), Side::Black);
    assert_eq!(g.chain_from(), None);
    assert_eq!(g.status(), Status::Ongoing);
}

#[test]
fn kings_step_and_capture_backward() {
    let mut g = pos(
        Side::White,
        &[(sq(4, 5), Side::White, true), (sq(0, 1), Side::Black, false)],
    );
    let targets = g.legal_targets(sq(4, 5));
    assert!(targets.contains(&sq(5, 4)) && targets.contains(&sq(5, 6)));
    assert!(g.play(sq(4, 5), sq(5, 6)));
    assert_eq!(g.turn(), Side::Black);

    let mut g = pos(
        Side::White,
        &[(sq(4, 5), Side::White, true), (sq(5, 4), Side::Black, false)],
    );
    assert_eq!(g.legal_targets(sq(4, 5)), vec![sq(6, 3)]);
    assert!(g.play(sq(4, 5), sq(6, 3)));
    assert_eq!(g.piece_at(sq(5, 4)), None, "victim removed");
    assert_eq!(g.turn(), Side::Black);
}

#[test]
fn men_cannot_move_backward() {
    let mut g = pos(
        Side::White,
        &[(sq(4, 5), Side::White, false), (sq(0, 1), Side::Black, false)],
    );
    assert_eq!(g.legal_targets(sq(4, 5)), vec![sq(3, 4), sq(3, 6)]);
    assert!(!g.play(sq(4, 5), sq(5, 4)));
    assert!(!g.play(sq(4, 5), sq(5, 6)));
    assert!(g.play(sq(4, 5), sq(3, 4)), "forward step still works");
}

#[test]
fn no_legal_moves_loses() {
    let mut g = pos(
        Side::White,
        &[
            (sq(0, 7), Side::Black, false),
            (sq(1, 6), Side::White, false),
            (sq(2, 5), Side::White, false),
            (sq(5, 2), Side::White, false),
        ],
    );
    assert!(g.play(sq(5, 2), sq(4, 3)));
    assert_eq!(g.counts(), (3, 1), "lost on mobility, not material");
    assert_eq!(g.status(), Status::Won(Side::White));
    assert!(g.legal_targets(sq(0, 7)).is_empty());
    assert!(!g.play(sq(0, 7), sq(1, 6)));
}

#[test]
fn easy_self_play_moves_stay_legal_and_games_terminate() {
    for run in 0..4u64 {
        let mut game = Checkers::new();
        let mut plies = 0;
        while game.status() == Status::Ongoing && plies < 300 {
            let Some((from, to)) = best_move(&game, Difficulty::Easy) else {
                break;
            };
            assert!(
                game.legal_targets(from).contains(&to),
                "run {run} ply {plies}: {from}->{to} was not a legal target"
            );
            assert!(game.play(from, to));
            plies += 1;
        }
        assert_ne!(game.status(), Status::Ongoing, "run {run}: no result after {plies} plies");
    }
}

#[test]
fn medium_finds_capture_when_available() {
    let game = Checkers::test_position(
        Side::White,
        &[(sq(5, 2), Side::White, false), (sq(4, 3), Side::Black, false)],
    );
    let (from, to) = best_move(&game, Difficulty::Medium).expect("a move exists");
    assert_eq!(from, sq(5, 2));
    assert_eq!((from / SIZE).abs_diff(to / SIZE), 2, "two rows past origin");
    assert_eq!((from % SIZE).abs_diff(to % SIZE), 2, "two columns past origin");
    let mid = (from + to) / 2;
    assert_eq!(
        game.piece_at(mid).map(|pc| pc.side),
        Some(Side::Black),
        "destination sits beyond an enemy man"
    );
}

#[test]
fn hard_completes_multi_jump_chains_from_locked_square() {
    let mut game = Checkers::test_position(
        Side::White,
        &[
            (sq(5, 2), Side::White, false),
            (sq(4, 3), Side::Black, false),
            (sq(2, 3), Side::Black, false),
        ],
    );
    let first = best_move(&game, Difficulty::Hard).expect("forced jump exists");
    assert!(game.play(first.0, first.1));
    assert_eq!(game.chain_from(), Some(sq(3, 4)), "chain still open");

    let second = best_move(&game, Difficulty::Hard).expect("chain move exists");
    assert_eq!(second.0, sq(3, 4), "only the locked chain piece moves");
    assert!(game.play(second.0, second.1));
    assert_eq!(game.status(), Status::Won(Side::White));
    assert_eq!(best_move(&game, Difficulty::Hard), None);
}

#[test]
fn chain_locks_other_pieces_and_opposite_flips() {
    assert_eq!(Side::White.opposite(), Side::Black);
    let mut g = pos(
        Side::White,
        &[
            (sq(5, 2), Side::White, false),
            (sq(5, 6), Side::White, false),
            (sq(4, 3), Side::Black, false),
            (sq(2, 3), Side::Black, false),
            (sq(0, 1), Side::Black, false),
        ],
    );
    assert!(g.play(sq(5, 2), sq(3, 4)));
    assert_eq!(g.chain_from(), Some(sq(3, 4)));
    assert!(g.legal_targets(sq(5, 6)).is_empty(), "only the chained piece moves");
    assert!(!g.play(sq(5, 6), sq(4, 7)));
}

#[test]
fn pick_from_order_keeps_the_forced_capture() {
    let game = Checkers::test_position(
        Side::White,
        &[(sq(5, 2), Side::White, false), (sq(4, 3), Side::Black, false)],
    );
    let mut roots = Vec::new();
    for from in 0..SIZE * SIZE {
        for to in game.legal_targets(from) {
            roots.push((from, to));
        }
    }
    assert_eq!(roots, vec![(sq(5, 2), sq(3, 4))]);
    for difficulty in Difficulty::ALL {
        assert_eq!(pick_from_order(&game, &roots, difficulty), Some((sq(5, 2), sq(3, 4))));
        assert_eq!(pick_from_order(&game, &Vec::new(), difficulty), None);
    }
}

use std::collections::HashSet;
use std::time::{Duration, Instant};

use smartasbrain::chess::ai::{best_move, pick_from_order};
use smartasbrain::game_core::Difficulty;
use smartasbrain::chess::engine::{sq, Chess, Kind, Piece, Side, Status, WHITE_KINGSIDE};

fn pc(side: Side, kind: Kind) -> Piece {
    Piece { side, kind }
}

/// Coordinate-flavored play helper: rows count from the top (row 6 = rank 2).
fn mv(state: &mut Chess, from: (usize, usize), to: (usize, usize)) -> bool {
    state.play(sq(from.0, from.1), sq(to.0, to.1))
}

#[test]
fn initial_position_has_20_legal_moves() {
    let state = Chess::new();
    let total: usize = (0..64).map(|i| state.legal_targets(i).len()).sum();
    assert_eq!(total, 20);
}

#[test]
fn rejects_moves_that_are_not_generated() {
    let mut state = Chess::new();
    // King cannot leap two ranks.
    assert!(!mv(&mut state, (7, 4), (5, 4)));
    // Not white's turn to move the e7 pawn.
    assert!(!mv(&mut state, (1, 4), (2, 4)));
}

#[test]
fn fools_mate_ends_won_black() {
    let mut state = Chess::new();
    assert!(mv(&mut state, (6, 5), (5, 5))); // f2f3
    assert!(mv(&mut state, (1, 4), (3, 4))); // e7e5
    assert!(mv(&mut state, (6, 6), (4, 6))); // g2g4
    assert!(mv(&mut state, (0, 3), (4, 7))); // d8h4#
    assert_eq!(state.status(), Status::Won(Side::Black));
    assert!(state.in_check());
}

#[test]
fn castles_kingside_when_clear() {
    let mut state = Chess::set_board(
        &[
            ((7, 4), pc(Side::White, Kind::King)),
            ((7, 7), pc(Side::White, Kind::Rook)),
            ((0, 4), pc(Side::Black, Kind::King)),
        ],
        Side::White,
    );
    assert!(state.legal_targets(sq(7, 4)).contains(&sq(7, 6)));
    assert!(mv(&mut state, (7, 4), (7, 6)));
    assert_eq!(state.board()[sq(7, 6)], Some(pc(Side::White, Kind::King)));
    assert_eq!(state.board()[sq(7, 5)], Some(pc(Side::White, Kind::Rook)));
    assert_eq!(state.board()[sq(7, 7)], None);
    assert!(!state.castling()[WHITE_KINGSIDE]);
    assert_eq!(state.last_move(), Some((sq(7, 4), sq(7, 6))));
}

#[test]
fn castling_refused_when_path_blocked() {
    let state = Chess::set_board(
        &[
            ((7, 4), pc(Side::White, Kind::King)),
            ((7, 7), pc(Side::White, Kind::Rook)),
            ((7, 5), pc(Side::White, Kind::Bishop)), // f1 blocks
            ((0, 4), pc(Side::Black, Kind::King)),
        ],
        Side::White,
    );
    assert!(!state.legal_targets(sq(7, 4)).contains(&sq(7, 6)));
}

#[test]
fn castling_refused_when_in_check() {
    let state = Chess::set_board(
        &[
            ((7, 4), pc(Side::White, Kind::King)),
            ((7, 7), pc(Side::White, Kind::Rook)),
            ((0, 4), pc(Side::Black, Kind::Rook)), // checks e1 down the file
            ((0, 0), pc(Side::Black, Kind::King)),
        ],
        Side::White,
    );
    assert!(state.in_check());
    let targets = state.legal_targets(sq(7, 4));
    assert!(!targets.contains(&sq(7, 6)));
    assert!(!targets.contains(&sq(7, 2)));
}

#[test]
fn castling_refused_when_transit_attacked() {
    let state = Chess::set_board(
        &[
            ((7, 4), pc(Side::White, Kind::King)),
            ((7, 7), pc(Side::White, Kind::Rook)),
            ((0, 5), pc(Side::Black, Kind::Rook)), // rakes the f-file
            ((0, 0), pc(Side::Black, Kind::King)),
        ],
        Side::White,
    );
    assert!(!state.in_check());
    assert!(!state.legal_targets(sq(7, 4)).contains(&sq(7, 6)));
}

#[test]
fn en_passant_captures_and_removes_pawn() {
    let mut state = Chess::new();
    assert!(mv(&mut state, (6, 4), (4, 4))); // e2e4
    assert!(mv(&mut state, (1, 0), (2, 0))); // a7a6
    assert!(mv(&mut state, (4, 4), (3, 4))); // e4e5
    assert!(mv(&mut state, (1, 3), (3, 3))); // d7d5, ep target d6
    assert_eq!(state.en_passant(), Some(sq(2, 3)));
    assert!(mv(&mut state, (3, 4), (2, 3))); // exd6 e.p.
    assert_eq!(state.board()[sq(3, 3)], None, "captured pawn vanishes");
    assert_eq!(state.board()[sq(2, 3)], Some(pc(Side::White, Kind::Pawn)));
}

#[test]
fn promotion_auto_places_queen() {
    let mut state = Chess::set_board(
        &[
            ((1, 4), pc(Side::White, Kind::Pawn)),
            ((7, 4), pc(Side::White, Kind::King)),
            ((0, 0), pc(Side::Black, Kind::King)),
        ],
        Side::White,
    );
    assert!(mv(&mut state, (1, 4), (0, 4))); // e7-e8
    assert_eq!(state.board()[sq(0, 4)], Some(pc(Side::White, Kind::Queen)));
}

#[test]
fn pinned_piece_may_not_move_off_line() {
    let state = Chess::set_board(
        &[
            ((7, 4), pc(Side::White, Kind::King)),
            ((4, 4), pc(Side::White, Kind::Rook)), // pinned by Re8
            ((0, 4), pc(Side::Black, Kind::Rook)),
            ((0, 0), pc(Side::Black, Kind::King)),
        ],
        Side::White,
    );
    let targets = state.legal_targets(sq(4, 4));
    // Still free to slide along the pin line, including taking the pinner.
    assert!(targets.contains(&sq(3, 4)));
    assert!(targets.contains(&sq(0, 4)));
    // Stepping off the file would expose the king.
    assert!(!targets.contains(&sq(4, 3)));
    assert!(!targets.contains(&sq(4, 5)));
}

#[test]
fn known_stalemate_position_yields_stalemate() {
    let state = Chess::set_board(
        &[
            ((0, 0), pc(Side::Black, Kind::King)),  // a8
            ((2, 1), pc(Side::White, Kind::Queen)), // b6 covers a7/b7/b8
            ((7, 7), pc(Side::White, Kind::King)),
        ],
        Side::Black,
    );
    assert!(!state.in_check());
    assert_eq!(state.status(), Status::Stalemate);
}

#[test]
fn best_move_returns_only_legal_moves() {
    let start = Chess::new();
    let endgame = Chess::set_board(
        &[
            ((7, 4), pc(Side::White, Kind::King)),
            ((4, 3), pc(Side::White, Kind::Queen)),
            ((0, 0), pc(Side::Black, Kind::King)),
            ((2, 5), pc(Side::White, Kind::Pawn)),
            ((1, 2), pc(Side::Black, Kind::Pawn)),
        ],
        Side::White,
    );
    let black_to_move = Chess::set_board(
        &[
            ((7, 4), pc(Side::White, Kind::King)),
            ((4, 4), pc(Side::White, Kind::Rook)),
            ((0, 4), pc(Side::Black, Kind::King)),
        ],
        Side::Black,
    );
    let positions = [&start, &endgame, &black_to_move];
    for state in positions {
        for difficulty in Difficulty::ALL {
            let Some((from, to)) = best_move(state, difficulty) else {
                panic!("position has legal moves but best_move returned none");
            };
            assert!(
                state.legal_targets(from).contains(&to),
                "{difficulty:?} suggested illegal {from}->{to}"
            );
        }
    }
}

#[test]
fn mate_in_one_found_at_medium() {
    // Back-rank setup: Rd1-d8 delivers mate against the boxed-in h8 king.
    let state = Chess::set_board(
        &[
            ((0, 7), pc(Side::Black, Kind::King)),
            ((1, 6), pc(Side::Black, Kind::Pawn)),
            ((1, 7), pc(Side::Black, Kind::Pawn)),
            ((7, 3), pc(Side::White, Kind::Rook)),
            ((7, 4), pc(Side::White, Kind::King)),
        ],
        Side::White,
    );
    let (from, to) = best_move(&state, Difficulty::Medium)
        .expect("white must have moves in the mate-in-one position");
    let mut played = state;
    assert!(played.play(from, to));
    assert_eq!(played.status(), Status::Won(Side::White));
}

#[test]
fn easy_differs_across_calls() {
    let state = Chess::new();
    let mut seen = HashSet::new();
    for _ in 0..50 {
        if let Some(mv) = best_move(&state, Difficulty::Easy) {
            seen.insert(mv);
        }
        if seen.len() >= 2 {
            break;
        }
    }
    assert!(seen.len() >= 2, "easy should vary its opening choices");
}

#[test]
fn hard_start_position_search_within_budget() {
    let state = Chess::new();
    let started = Instant::now();
    let chosen = best_move(&state, Difficulty::Hard);
    let elapsed = started.elapsed();
    assert!(chosen.is_some());
    assert!(
        elapsed < Duration::from_secs(5),
        "hard search took {elapsed:?}"
    );
}


#[test]
fn mate_in_one_found_in_either_root_order() {
    let state = Chess::set_board(
        &[
            ((0, 7), pc(Side::Black, Kind::King)),
            ((1, 6), pc(Side::Black, Kind::Pawn)),
            ((1, 7), pc(Side::Black, Kind::Pawn)),
            ((7, 3), pc(Side::White, Kind::Rook)),
            ((7, 4), pc(Side::White, Kind::King)),
        ],
        Side::White,
    );
    let mut root = Vec::new();
    for from in 0..64 {
        for to in state.legal_targets(from) {
            root.push((from, to));
        }
    }
    let mut reversed = root.clone();
    reversed.reverse();
    for order in [root, reversed] {
        let (from, to) = pick_from_order(&state, &order, Difficulty::Medium).expect("moves exist");
        let mut played = state;
        assert!(played.play(from, to));
        assert_eq!(played.status(), Status::Won(Side::White));
    }
    assert_eq!(pick_from_order(&state, &Vec::new(), Difficulty::Hard), None);
}

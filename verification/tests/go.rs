use smartasbrain::game_core::Difficulty;
use smartasbrain::go::ai::best_move;
use smartasbrain::go::engine::{group_and_liberties, GoState, MoveResult, Player};

const N: usize = 9;

fn pt(r: usize, c: usize) -> usize {
    r * N + c
}

#[test]
fn capture_single_stone_in_atari() {
    let mut s = GoState::new(N);

    // Wrap a white stone at (1,1) with black on all four sides; white
    // stalls along the bottom edge between black moves.
    let seq: &[(usize, bool)] = &[
        // (idx, is_black)
        (pt(8, 8), true),  // B filler corner
        (pt(1, 1), false), // W target stone
        (pt(0, 1), true),  // B north
        (pt(8, 7), false), // W stall
        (pt(2, 1), true),  // B south
        (pt(8, 6), false), // W stall
        (pt(1, 0), true),  // B west
        (pt(8, 5), false), // W stall
        (pt(1, 2), true),  // B east -> capture
    ];
    for &(idx, is_black) in seq {
        let expected = if is_black {
            Player::Black
        } else {
            Player::White
        };
        assert_eq!(s.turn, expected, "out of turn before move at {idx}");
        assert_eq!(s.play(idx), MoveResult::Played, "move at {idx}");
    }

    assert_eq!(s.board()[pt(1, 1)], Player::Empty, "white stone captured");
    assert_eq!(s.captures_black, 1);
    assert_eq!(s.captures_white, 0);
}

#[test]
fn capture_two_stone_group() {
    let mut s = GoState::new(N);

    // White pair at (4,4),(5,4); its six outside liberties are
    // (3,4),(4,3),(4,5),(6,4),(5,3),(5,5). Black fills them across turns
    // while white stalls on the bottom edge; the sixth fill captures.
    let ring = [pt(3, 4), pt(4, 3), pt(4, 5), pt(6, 4), pt(5, 3), pt(5, 5)];
    let stalls = [pt(8, 0), pt(8, 1), pt(8, 2), pt(8, 3), pt(8, 4)];

    assert_eq!(s.play(pt(8, 8)), MoveResult::Played); // B filler
    assert_eq!(s.play(pt(4, 4)), MoveResult::Played); // W pair a
    assert_eq!(s.play(ring[0]), MoveResult::Played); // B
    assert_eq!(s.play(pt(5, 4)), MoveResult::Played); // W pair b
    assert_eq!(s.play(ring[1]), MoveResult::Played); // B
    assert_eq!(s.play(stalls[0]), MoveResult::Played); // W
    assert_eq!(s.play(ring[2]), MoveResult::Played); // B
    assert_eq!(s.play(stalls[1]), MoveResult::Played); // W
    assert_eq!(s.play(ring[3]), MoveResult::Played); // B
    assert_eq!(s.play(stalls[2]), MoveResult::Played); // W
    assert_eq!(s.play(ring[4]), MoveResult::Played); // B
    assert_eq!(s.play(stalls[3]), MoveResult::Played); // W

    // Five of six liberties gone; exactly one must remain.
    let (_, libs) = group_and_liberties(s.board(), N, pt(4, 4));
    assert_eq!(libs, 1, "one liberty must remain");

    assert_eq!(s.play(ring[5]), MoveResult::Played); // B closes the net
    assert_eq!(s.board()[pt(4, 4)], Player::Empty);
    assert_eq!(s.board()[pt(5, 4)], Player::Empty);
    assert_eq!(s.captures_black, 2);
}

#[test]
fn suicide_is_forbidden() {
    let mut s = GoState::new(N);
    // Surround corner (0,0) with white on its two neighbours.
    assert_eq!(s.play(pt(8, 8)), MoveResult::Played); // B elsewhere
    assert_eq!(s.play(pt(0, 1)), MoveResult::Played); // W (0,1)
    assert_eq!(s.play(pt(8, 7)), MoveResult::Played); // B elsewhere
    assert_eq!(s.play(pt(1, 0)), MoveResult::Played); // W (1,0)

    // Both white neighbours still hold outside liberties, so nothing is
    // captured and black's stone would have zero liberties.
    assert_eq!(s.play(0), MoveResult::Suicide);
    assert_eq!(s.board()[0], Player::Empty);
}

#[test]
fn simple_ko_is_blocked() {
    let mut s = GoState::new(N);
    let play = |s: &mut GoState, idx: usize| {
        assert_eq!(s.play(idx), MoveResult::Played, "move at {idx}");
    };

    // Textbook ko shape (cols 0-3, rows 0-2):
    //   . B W .
    //   B W _ W      <- white (1,1) is in atari; mouth at (1,2)
    //   . B W .
    // Black plays (1,2) capturing W(1,1); the capturing stone is then a
    // lone stone with its only liberty at (1,1), so immediate white
    // recapture would recreate the prior position -> ko.
    play(&mut s, pt(0, 1)); // B (0,1)
    play(&mut s, pt(1, 1)); // W target
    play(&mut s, pt(1, 0)); // B (1,0)
    play(&mut s, pt(0, 2)); // W (0,2)
    play(&mut s, pt(2, 1)); // B (2,1)
    play(&mut s, pt(1, 3)); // W (1,3)
    play(&mut s, pt(8, 8)); // B stall
    play(&mut s, pt(2, 2)); // W (2,2)

    let (_, libs) = group_and_liberties(s.board(), N, pt(1, 1));
    assert_eq!(libs, 1);

    play(&mut s, pt(1, 2)); // B captures
    assert_eq!(s.board()[pt(1, 1)], Player::Empty);
    assert_eq!(s.captures_black, 1);

    // The capturing stone sits alone with one liberty.
    let (group, libs) = group_and_liberties(s.board(), N, pt(1, 2));
    assert_eq!(group, vec![pt(1, 2)]);
    assert_eq!(libs, 1);

    // Immediate recapture recreates the previous position.
    assert_eq!(s.play(pt(1, 1)), MoveResult::Ko);
    assert_eq!(s.board()[pt(1, 2)], Player::Black, "ko point stays black");
}

#[test]
fn occupied_point_rejected() {
    let mut state = GoState::new(N);
    assert_eq!(state.play(0), MoveResult::Played);
    assert_eq!(state.play(0), MoveResult::Occupied);
}

#[test]
fn two_passes_end_the_game() {
    let mut s = GoState::new(N);
    assert_eq!(s.pass(), MoveResult::Played);
    assert!(!s.over);
    assert_eq!(s.turn, Player::White);
    assert_eq!(s.play(pt(4, 4)), MoveResult::Played);
    assert_eq!(s.passes, 0, "a stone resets the pass count");
    assert_eq!(s.pass(), MoveResult::Played);
    assert_eq!(s.pass(), MoveResult::Played);
    assert!(s.over);
    assert_eq!(s.play(0), MoveResult::GameOver);
    assert_eq!(s.pass(), MoveResult::GameOver);
}

#[test]
fn out_of_range_point_is_occupied() {
    let mut s = GoState::new(N);
    assert_eq!(s.play(N * N), MoveResult::Occupied);
    assert_eq!(s.turn, Player::Black);
}

#[test]
fn liberties_of_a_lone_corner_stone() {
    let mut s = GoState::new(N);
    assert_eq!(s.play(0), MoveResult::Played);
    let (group, libs) = group_and_liberties(s.board(), N, 0);
    assert_eq!(group, vec![0]);
    assert_eq!(libs, 2);
}

fn play_ok(s: &mut GoState, idx: usize) {
    assert_eq!(s.play(idx), MoveResult::Played, "setup move at {idx}");
}

#[test]
fn ai_never_plays_illegal_or_occupied() {
    let mut state = GoState::new(N);
    let mut plies = 0usize;
    while plies < 120 && !state.over {
        let Some(idx) = best_move(&state, Difficulty::Easy) else {
            state.pass();
            continue;
        };
        assert_eq!(
            state.board()[idx],
            Player::Empty,
            "ply {plies} targeted an occupied point"
        );
        assert_eq!(state.play(idx), MoveResult::Played, "ply {plies}");
        plies += 1;
    }
    assert!(plies > 0, "the bot should have moved at least once");
}

#[test]
fn ai_takes_free_capture() {
    let mut s = GoState::new(N);
    // White (0,0) ends up with its last liberty at (1,0); black to move.
    // Both black stones stay safe, and white's second move is far away,
    // so the capture is genuinely free (nothing to rescue, no recapture).
    play_ok(&mut s, pt(8, 8)); // B filler
    play_ok(&mut s, pt(0, 0)); // W target
    play_ok(&mut s, pt(0, 1)); // B north
    play_ok(&mut s, pt(0, 5)); // W far away
    assert_eq!(s.turn, Player::Black);

    for difficulty in [Difficulty::Medium, Difficulty::Hard] {
        let mut trial = s.clone();
        let mv = best_move(&trial, difficulty)
            .unwrap_or_else(|| panic!("{difficulty:?} should find a move"));
        assert_eq!(mv, pt(1, 0), "{difficulty:?} must capture at (1,0)");
        assert_eq!(trial.play(mv), MoveResult::Played);
        assert_eq!(trial.board()[pt(0, 0)], Player::Empty, "stone captured");
    }
}

#[test]
fn ai_passes_when_board_full() {
    let cells: Vec<Player> = (0..N * N)
        .map(|i| {
            if i % 2 == 0 {
                Player::Black
            } else {
                Player::White
            }
        })
        .collect();
    let state = GoState::from_cells(N, cells, Player::Black);
    for difficulty in Difficulty::ALL {
        assert_eq!(best_move(&state, difficulty), None);
    }
}

#[test]
fn area_on_an_empty_board_is_zero_for_both() {
    let mut state = GoState::new(N);
    assert_eq!(state.pass(), MoveResult::Played);
    assert_eq!(state.pass(), MoveResult::Played);
    assert!(state.over);
    assert_eq!(state.area(), (0, 0));
}

#[test]
fn area_counts_stones_and_shared_board_has_no_territory() {
    let mut state = GoState::new(N);
    assert_eq!(state.play(pt(4, 4)), MoveResult::Played);
    assert_eq!(state.play(pt(4, 5)), MoveResult::Played);
    assert_eq!(state.pass(), MoveResult::Played);
    assert_eq!(state.pass(), MoveResult::Played);
    assert!(state.over);
    // Every empty point touches both colours, so territory is zero.
    assert_eq!(state.area(), (1, 1));
}

#[test]
fn area_gives_an_enclosed_corner_to_its_owner() {
    // Black walls off the top-left 2x2 corner of a 9x9 board.
    let mut cells = vec![Player::Empty; N * N];
    for &(r, c) in &[(0, 2), (1, 2), (2, 0), (2, 1), (2, 2)] {
        cells[pt(r, c)] = Player::Black;
    }
    cells[pt(8, 8)] = Player::White;
    let state = GoState::from_cells(N, cells, Player::White);
    let (black, white) = state.area();
    // 5 stones + 4 enclosed points; the big region touches both colours.
    assert_eq!(black, 9);
    assert_eq!(white, 1);
}

#[test]
fn played_stone_keeps_its_point_after_captures() {
    // White stone at (0,1) in atari; black plays (1,1) capturing it.
    let mut cells = vec![Player::Empty; N * N];
    cells[pt(0, 0)] = Player::Black;
    cells[pt(0, 2)] = Player::Black;
    cells[pt(0, 1)] = Player::White;
    let mut state = GoState::from_cells(N, cells, Player::Black);
    assert_eq!(state.play(pt(1, 1)), MoveResult::Played);
    assert_eq!(state.board()[pt(1, 1)], Player::Black);
    assert_eq!(state.board()[pt(0, 1)], Player::Empty);
    assert_eq!(state.board()[pt(0, 0)], Player::Black);
    assert_eq!(state.captures(), (1, 0));
}

#[test]
fn medium_never_passes_up_a_capture() {
    let mut cells = vec![Player::Empty; N * N];
    cells[pt(1, 1)] = Player::White;
    cells[pt(0, 1)] = Player::Black;
    cells[pt(1, 0)] = Player::Black;
    cells[pt(1, 2)] = Player::Black;
    let state = GoState::from_cells(N, cells, Player::Black);
    let mv = best_move(&state, Difficulty::Medium);
    assert!(mv.is_some(), "a capture is on the board, so Medium plays");
    assert_eq!(mv, Some(pt(2, 1)), "the capture is the best-valued point");
}

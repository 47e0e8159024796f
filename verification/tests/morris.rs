use rand::{thread_rng, Rng};
use smartasbrain::game_core::Difficulty;
use smartasbrain::morris::ai::{best_action, best_removal, pick_root};
use smartasbrain::morris::engine::{Action, Morris, Phase, Side, Status, POINTS};
use smartasbrain::morris::engine::Side::White;

#[test]
fn placement_alternates_and_rejects_bad_targets() {
    let mut g = Morris::new();
    assert_eq!(g.phase(), Phase::Place);
    assert_eq!(g.turn(), Side::White);
    assert!(g.place(0));
    assert_eq!(g.turn(), Side::Black);
    assert_eq!(g.stones_left(Side::White), 8);
    assert!(g.place(23));
    assert_eq!(g.turn(), Side::White);
    assert!(!g.place(0), "occupied point");
    assert!(!g.place(POINTS), "out of range");
    assert!(!g.move_stone(0, 1), "cannot slide while placing");
    assert!(!g.remove(23), "nothing pending");
}

#[test]
fn mill_sets_pending_then_removal_passes_turn() {
    let mut g = Morris::new();
    for (side, pt) in [
        (Side::White, 0usize),
        (Side::Black, 9),
        (Side::White, 1),
        (Side::Black, 10),
        (Side::White, 2),
    ] {
        assert_eq!(g.turn(), side);
        assert!(g.place(pt));
    }
    assert!(g.removal_pending(), "0-1-2 completed");
    assert_eq!(g.turn(), Side::White, "mover keeps the turn for capture");
    assert_eq!(g.removable_points(), vec![9, 10]);
    assert!(!g.remove(0), "own stone");
    assert!(g.remove(10));
    assert!(!g.removal_pending());
    assert_eq!(g.turn(), Side::Black);
    assert_eq!(g.last_action(), Some(Action::Remove(10)));
}

#[test]
fn removal_refuses_protected_unless_all_protected() {
    // White just closed 0-1-2; black owns the 3-4-5 mill plus point 6.
    let mut g = Morris::set_position(
        &[
            (0, Side::White),
            (1, Side::White),
            (2, Side::White),
            (3, Side::Black),
            (4, Side::Black),
            (5, Side::Black),
            (6, Side::Black),
        ],
        [0, 0],
        Side::White,
        true,
    );
    assert_eq!(g.removable_points(), vec![6], "mill stones shielded");
    assert!(!g.remove(3));
    assert!(g.remove(6));

    // Everything black has lives in mills: the shield drops.
    let mut g = Morris::set_position(
        &[
            (0, Side::White),
            (1, Side::White),
            (2, Side::White),
            (3, Side::Black),
            (4, Side::Black),
            (5, Side::Black),
        ],
        [0, 0],
        Side::White,
        true,
    );
    assert_eq!(g.removable_points(), vec![3, 4, 5]);
    assert!(g.remove(4));
}

#[test]
fn flying_activates_at_exactly_three_placed_stones() {
    let mut g = Morris::set_position(
        &[
            (0, Side::White),
            (4, Side::White),
            (7, Side::White),
            (9, Side::Black),
            (10, Side::Black),
            (11, Side::Black),
        ],
        [0, 0],
        Side::White,
        false,
    );
    assert!(g.flying(Side::White));
    assert!(g.flying(Side::Black));
    assert!(g.legal_moves_from(0).contains(&21), "flight skips lines");
    assert!(g.move_stone(0, 21));

    // Four stones: strictly adjacency-bound again.
    let mut g = Morris::set_position(
        &[
            (0, Side::White),
            (4, Side::White),
            (7, Side::White),
            (16, Side::White),
            (9, Side::Black),
            (10, Side::Black),
            (11, Side::Black),
        ],
        [0, 0],
        Side::White,
        false,
    );
    assert!(!g.flying(Side::White));
    assert_eq!(g.legal_moves_from(0), vec![1], "point 9 is black's");
    assert!(!g.move_stone(0, 21));
}

#[test]
fn moving_phase_rejects_non_adjacent_slide() {
    // Four white stones keep flight off so adjacency bites.
    let mut g = Morris::set_position(
        &[
            (0, Side::White),
            (3, Side::White),
            (6, Side::White),
            (19, Side::White),
            (21, Side::Black),
            (22, Side::Black),
            (23, Side::Black),
        ],
        [0, 0],
        Side::White,
        false,
    );
    assert_eq!(g.phase(), Phase::Move);
    assert!(!g.move_stone(0, 16), "no line joins 0 and 16");
    assert!(!g.move_stone(21, 0), "enemy stone");
    assert!(!g.move_stone(5, 4), "source empty");
    assert!(g.move_stone(0, 1));
}

#[test]
fn fully_blocked_side_to_move_loses() {
    // Four black stones (0, 2, 21, 23) whose every neighbour is white,
    // so flight never kicks in; white 6 sits clear of the siege and its
    // slide opens no gaps.
    let mut g = Morris::set_position(
        &[
            (1, Side::White),
            (9, Side::White),
            (14, Side::White),
            (22, Side::White),
            (6, Side::White),
            (0, Side::Black),
            (2, Side::Black),
            (21, Side::Black),
            (23, Side::Black),
        ],
        [0, 0],
        Side::White,
        false,
    );
    assert!(g.move_stone(6, 7), "white steps aside, mill-free");
    assert_eq!(g.status(), Status::Won(Side::White), "black cannot act");
    assert_eq!(g.phase(), Phase::Over);
}

#[test]
fn reduction_below_three_total_loses_immediately() {
    // White holds mill 0-1-2 and owes a capture; black has three total.
    let mut g = Morris::set_position(
        &[
            (0, Side::White),
            (1, Side::White),
            (2, Side::White),
            (9, Side::White),
            (21, Side::Black),
            (18, Side::Black),
            (15, Side::Black),
        ],
        [0, 0],
        Side::White,
        true,
    );
    assert!(g.remove(21));
    assert_eq!(
        g.status(),
        Status::Won(Side::White),
        "black down to two stones"
    );
    assert_eq!(g.phase(), Phase::Over);
}

#[test]
fn scripted_game_tracks_phases_counts_and_actions() {
    let mut g = Morris::new();
    // Interleaved placements; white closes 0-1-2 on its fifth drop.
    let script: [(Side, usize); 18] = [
        (Side::White, 0),
        (Side::Black, 21),
        (Side::White, 3),
        (Side::Black, 18),
        (Side::White, 6),
        (Side::Black, 15),
        (Side::White, 1),
        (Side::Black, 22),
        (Side::White, 2), // mill
        (Side::Black, 19),
        (Side::White, 4),
        (Side::Black, 10),
        (Side::White, 5),  // mill 3-4-5
        (Side::Black, 17), // off the 16-19-22 rail, so black never mills
        (Side::White, 7),  // mill 1-4-7
        (Side::Black, 11),
        (Side::White, 20),
        (Side::Black, 13),
    ];
    let mut captures = 0;
    for &(side, pt) in &script {
        assert_eq!(g.turn(), side, "alternation broke before {pt}");
        assert!(g.place(pt), "{side:?} place {pt}");
        if g.removal_pending() {
            captures += 1;
            let target = g.removable_points()[0];
            assert!(g.remove(target));
        }
    }
    assert_eq!(captures, 3, "white closed three mills");
    assert_eq!(g.phase(), Phase::Move);
    assert_eq!(g.stones_left(Side::White), 0);
    assert_eq!(g.stones_left(Side::Black), 0);
    assert_eq!(g.status(), Status::Ongoing);

    let whites = (0..POINTS)
        .filter(|&i| g.point(i) == Some(Side::White))
        .count();
    let blacks = (0..POINTS)
        .filter(|&i| g.point(i) == Some(Side::Black))
        .count();
    assert_eq!(whites, 9, "nine white stones, never touched");
    assert_eq!(blacks, 9 - captures, "one stone per capture");

    // Point 9 is never played in the script, so this slide always fits.
    assert!(g.move_stone(0, 9), "slide along the left rail");
    assert!(!g.removal_pending());
    assert_eq!(g.last_action(), Some(Action::Move(0, 9)));
    assert_eq!(g.turn(), Side::Black);
    assert_eq!(g.status(), Status::Ongoing);
}

#[test]
fn ai_completes_mill_then_removes_protected_pool_correctly() {
    // Every white stone is frozen except two sliders that both land on 8
    // and close 6-7-8, so whatever the evaluation tastes like, the search
    // must hand back a mill completion. Black's 3-4-5 and 5-13-20 mills
    // shield most of its force, pinning the capture to the free stones.
    let g = Morris::set_position(
        &[
            (6, Side::White),
            (7, Side::White),
            (12, Side::White),
            (16, Side::White),
            (3, Side::Black),
            (4, Side::Black),
            (5, Side::Black),
            (11, Side::Black),
            (13, Side::Black),
            (15, Side::Black),
            (17, Side::Black),
            (19, Side::Black),
            (20, Side::Black),
        ],
        [0, 0],
        White,
        false,
    );
    assert_eq!(g.removable_points(), Vec::<usize>::new());
    assert!(
        best_removal(&g, Difficulty::Medium).is_none(),
        "nothing pending"
    );
    let action = best_action(&g, Difficulty::Medium).expect("moves available");
    assert!(
        matches!(action, Action::Move(_, 8)),
        "only the mill-completing slides exist, got {action:?}"
    );

    let mut g = g;
    match action {
        Action::Move(from, to) => assert!(g.move_stone(from, to)),
        _ => unreachable!("checked above"),
    }
    assert!(g.removal_pending(), "mill closed, capture owed");
    let legal = g.removable_points();
    assert_eq!(legal, vec![11, 15, 17, 19], "mill stones shielded");
    let target = best_removal(&g, Difficulty::Medium).expect("capture due");
    assert!(legal.contains(&target), "exemption respected");
    assert!(g.remove(target));
    assert!(!g.removal_pending());
    // Play passes to black, who still gets ordinary place/move answers.
    let reply = best_action(&g, Difficulty::Medium);
    assert!(
        matches!(reply, Some(Action::Place(_)) | Some(Action::Move(_, _))),
        "black must receive an action, got {reply:?}"
    );
}

#[test]
fn ai_removal_picks_only_legal_targets_even_when_all_are_shielded() {
    // Black's whole force lives inside 9-10-11: the shield drops and any
    // of its stones becomes fair game.
    let g = Morris::set_position(
        &[
            (0, Side::White),
            (1, Side::White),
            (2, Side::White),
            (16, Side::White),
            (9, Side::Black),
            (10, Side::Black),
            (11, Side::Black),
        ],
        [0, 0],
        White,
        true,
    );
    assert_eq!(g.removable_points(), vec![9, 10, 11]);
    for _ in 0..20 {
        let target = best_removal(&g, Difficulty::Easy).expect("capture due");
        assert!(
            [9usize, 10, 11].contains(&target),
            "picked protected stone {target}"
        );
        assert!(g.point(target) == Some(Side::Black));
    }
}

#[test]
fn easy_vs_easy_playouts_stay_legal_and_finish() {
    // Easy shuffles safely once ahead, so every tenth step takes a random
    // legal action to shake oscillations; the win must still arrive.
    let mut rng = thread_rng();
    for _ in 0..10 {
        let mut g = Morris::new();
        let mut finished = false;
        for _step in 0..5000 {
            match g.status() {
                Status::Won(_) => {
                    finished = true;
                    break;
                }
                Status::Ongoing => {}
            }
            if g.removal_pending() {
                let legal = g.removable_points();
                let target = if rng.gen_bool(0.1) {
                    legal[usize::from(rng.gen_bool(0.5)) % legal.len()]
                } else {
                    best_removal(&g, Difficulty::Easy)
                        .expect("pending capture must offer a target")
                };
                assert!(legal.contains(&target), "illegal capture {target}");
                assert!(g.remove(target), "engine refused its own suggestion");
            } else {
                let action = if rng.gen_bool(0.1) {
                    random_action(&g)
                } else {
                    best_action(&g, Difficulty::Easy)
                        .expect("ongoing position without any action")
                };
                match action {
                    Action::Place(i) => assert!(g.place(i), "illegal place {i}"),
                    Action::Move(from, to) => {
                        assert!(g.move_stone(from, to), "illegal move {from}->{to}");
                    }
                    Action::Remove(_) => panic!("action slot returned a capture"),
                }
            }
        }
        assert!(finished, "easy duel with shakes never reached a win");
    }
}

/// Uniformly random legal place/move, for stall-breaking only.
fn random_action(game: &Morris) -> Action {
    let mut pool = Vec::new();
    for i in 0..POINTS {
        if game.phase() == Phase::Place {
            if game.point(i).is_none() {
                pool.push(Action::Place(i));
            }
        } else {
            for dest in game.legal_moves_from(i) {
                pool.push(Action::Move(i, dest));
            }
        }
    }
    pool[thread_rng().gen_range(0..pool.len())]
}

#[test]
fn hard_search_terminates_quickly_from_the_start() {
    let start = std::time::Instant::now();
    let chosen = best_action(&Morris::new(), Difficulty::Hard);
    let elapsed = start.elapsed();
    assert!(matches!(chosen, Some(Action::Place(_))));
    assert!(elapsed < std::time::Duration::from_secs(5), "{elapsed:?}");
}

#[test]
fn root_pick_closes_the_mill_in_either_order() {
    let g = Morris::set_position(
        &[
            (6, Side::White),
            (7, Side::White),
            (12, Side::White),
            (16, Side::White),
            (3, Side::Black),
            (4, Side::Black),
            (5, Side::Black),
            (11, Side::Black),
            (13, Side::Black),
            (15, Side::Black),
            (17, Side::Black),
            (19, Side::Black),
            (20, Side::Black),
        ],
        [0, 0],
        White,
        false,
    );
    let mut root = Vec::new();
    for from in 0..POINTS {
        if g.point(from) == Some(Side::White) {
            for to in g.legal_moves_from(from) {
                root.push(Action::Move(from, to));
            }
        }
    }
    assert!(!root.is_empty());
    let mut reversed = root.clone();
    reversed.reverse();
    for order in [root, reversed] {
        let a = pick_root(&g, &order, 3, Difficulty::Medium);
        assert!(matches!(a, Action::Move(_, 8)), "got {a:?}");
    }
}

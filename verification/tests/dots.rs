use smartasbrain::dots::ai::best_edge;
use smartasbrain::dots::engine::{
    box_edges, decompose, h_id, v_id, Dots, Side, Status, BOXES, EDGES,
};
use smartasbrain::game_core::Difficulty;

#[test]
fn completing_a_box_grants_another_turn_and_chains() {
    let mut g = Dots::new();
    assert!(g.play(h_id(0, 0)));
    assert_eq!(g.turn(), Side::Black);
    assert!(g.play(h_id(1, 0)));
    assert_eq!(g.turn(), Side::White);
    assert!(g.play(v_id(0, 0)));
    assert_eq!(g.turn(), Side::Black);

    assert!(g.play(v_id(0, 1)));
    assert_eq!(g.box_owner(0, 0), Some(Side::Black));
    assert_eq!(g.score(Side::Black), 1);
    assert_eq!(g.turn(), Side::Black, "extra turn after completion");

    let open = g.open_edges();
    assert!(g.play(open[0]));
    assert_eq!(g.turn(), Side::White);
}

#[test]
fn double_play_is_rejected() {
    let mut g = Dots::new();
    assert!(g.play(h_id(0, 0)));
    assert!(!g.play(h_id(0, 0)));
    assert_eq!(g.claimed(h_id(0, 0)), Some(Side::White));
}

#[test]
fn final_tally_picks_winner_or_draw() {
    let mut g = Dots::new();
    while g.status().is_ongoing() {
        let open = g.open_edges();
        let pick = *open.first().expect("open edges exist");
        g.play(pick);
    }
    let total: usize = (0..BOXES)
        .flat_map(|r| (0..BOXES).map(move |c| (r, c)))
        .filter(|&(r, c)| g.box_owner(r, c).is_some())
        .count();
    assert_eq!(total, BOXES * BOXES);
    assert!(!matches!(g.status(), Status::Ongoing));
}

#[test]
fn draw_detected_on_even_split() {
    let mut g = Dots::new();
    g.set_score(Side::White, 8);
    g.set_score(Side::Black, 8);
    g.declare(Status::Draw);
    assert_eq!(g.status(), Status::Draw);
}

#[test]
fn medium_takes_free_box_when_available() {
    let mut g = Dots::new();
    g.play(h_id(0, 0));
    g.play(h_id(1, 0));
    g.play(v_id(0, 0));
    assert_eq!(best_edge(&g, Difficulty::Medium), Some(v_id(0, 1)));
}

#[test]
fn easy_self_play_never_claims_taken_edges() {
    for _seed in 0..6_u64 {
        let mut g = Dots::new();
        let mut plies = 0_u32;
        while g.status().is_ongoing() {
            let Some(e) = best_edge(&g, Difficulty::Easy) else {
                break;
            };
            assert!(g.claimed(e).is_none(), "claimed edge replayed");
            assert!(g.play(e));
            plies += 1;
            assert!(plies <= EDGES as u32);
        }
    }
}

#[test]
fn hard_avoids_handing_a_three_sided_box() {
    let mut g = Dots::new();
    g.play(h_id(0, 0));
    g.play(h_id(1, 0));
    g.play(v_id(0, 0));
    assert_eq!(best_edge(&g, Difficulty::Hard), Some(v_id(0, 1)));
}

#[test]
fn ai_finished_game_yields_no_move() {
    let mut g = Dots::new();
    while g.status().is_ongoing() {
        let open = g.open_edges();
        g.play(open[0]);
    }
    assert_eq!(best_edge(&g, Difficulty::Hard), None);
}

#[test]
fn edge_ids_decompose_back_to_their_coordinates() {
    assert_eq!(decompose(h_id(4, 3)), (false, 4, 3));
    assert_eq!(decompose(v_id(3, 4)), (true, 3, 4));
    assert_eq!(box_edges(1, 2), [h_id(1, 2), h_id(2, 2), v_id(1, 2), v_id(1, 3)]);
    assert_eq!(Side::White.opposite(), Side::Black);
    assert_eq!(Side::Black.symbol(), '\u{25cf}');
    let g = Dots::new();
    assert_eq!(g.claimed(EDGES), None);
    assert_eq!(g.box_owner(BOXES, 0), None);
    assert!(g.boxes_completed_last().is_empty());
}

#[test]
fn one_edge_can_close_two_boxes_at_once() {
    // Boxes (0,0) and (0,1) share the vertical edge v(0,1); claim every
    // other edge of both boxes first.
    let mut g = Dots::new();
    for e in [h_id(0, 0), h_id(1, 0), v_id(0, 0), h_id(0, 1), h_id(1, 1), v_id(0, 2)] {
        assert!(g.play(e));
    }
    let mover = g.turn();
    assert!(g.play(v_id(0, 1)));
    assert_eq!(g.boxes_completed_last(), &[(0, 0), (0, 1)]);
    assert_eq!(g.score(mover), 2);
    assert_eq!(g.turn(), mover);
}

#[test]
fn medium_prefers_safe_edges_over_gifts() {
    // Two sides of box (0,0) are claimed: its other two edges would each
    // gift the box, so Medium must pick an edge elsewhere.
    let mut g = Dots::new();
    g.play(h_id(0, 0));
    g.play(v_id(0, 0));
    let e = best_edge(&g, Difficulty::Medium).expect("open edges");
    assert_ne!(e, h_id(1, 0));
    assert_ne!(e, v_id(0, 1));
    assert!(g.claimed(e).is_none());
}

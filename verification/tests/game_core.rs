use smartasbrain::game_core::geom::{
    board_height, board_width, centered_rect, fit_canvas, fit_canvas_rows, grid_cell, in_rect,
    proportional_ladder, Rect,
};
use smartasbrain::game_core::Difficulty;

#[test]
fn in_rect_bounds_are_exclusive_on_far_edges() {
    let r = Rect::new(2, 3, 4, 2);
    assert!(in_rect(r, 2, 3));
    assert!(in_rect(r, 5, 4));
    assert!(!in_rect(r, 6, 3));
    assert!(!in_rect(r, 2, 5));
}

#[test]
fn canvas_prefers_widest_cells_then_falls_back() {
    let area = Rect::new(0, 0, 60, 20);
    let c = fit_canvas_rows(area, 9, 9, 1, &[2, 1]).expect("wide fits");
    assert_eq!((c.cell_w, c.cell_h), (2, 1));
    assert_eq!(c.x0, 1 + (58 - 17) / 2);

    let c = fit_canvas_rows(Rect::new(0, 0, 11, 11), 9, 9, 1, &[2, 1]).expect("compact fits");
    assert_eq!((c.cell_w, c.cell_h), (1, 1));
    assert_eq!(c.x0, 1);
    assert!(fit_canvas_rows(Rect::new(0, 0, 5, 5), 9, 9, 1, &[2, 1]).is_none());
}

#[test]
fn board_width_accounts_for_spacers() {
    assert_eq!(board_width(9, 2), 17);
    assert_eq!(board_width(9, 1), 9);
    assert_eq!(board_width(7, 3), 19);
}

#[test]
fn tall_cells_fill_big_screens_and_stay_square() {
    let c = fit_canvas(Rect::new(0, 0, 80, 40), 9, 9, 1, &[(2, 2), (2, 1), (1, 1)])
        .expect("big screen fits");
    assert_eq!((c.cell_w, c.cell_h), (2, 2));
    let c = fit_canvas(Rect::new(0, 0, 80, 40), 9, 9, 1, &[(2, 1)]).expect("flat fits");
    assert_eq!((c.cell_w, c.cell_h), (2, 1));
}

#[test]
fn ladder_orders_big_to_small_and_stays_proportioned() {
    let ladder = proportional_ladder(9, 9, 13, 6);
    assert_eq!(ladder.first(), Some(&(13, 6)), "roomiest first");
    assert!(ladder.contains(&(2, 1)));
    assert!(ladder.contains(&(1, 1)));
    for (w, h) in &ladder {
        assert!(w.abs_diff(h.saturating_mul(2)) <= 1);
    }
}

#[test]
fn proportion_scoring_prefers_the_squarest_option() {
    let c = fit_canvas(Rect::new(0, 0, 60, 14), 9, 9, 1, &[(2, 2), (2, 1)]).expect("fits");
    assert_eq!((c.cell_w, c.cell_h), (2, 1));
}

#[test]
fn centered_rect_clamps_to_area() {
    let area = Rect::new(0, 0, 20, 10);
    assert_eq!(centered_rect(area, 30, 4), Rect::new(0, 3, 20, 4));
    assert_eq!(centered_rect(area, 10, 4), Rect::new(5, 3, 10, 4));
}

#[test]
fn board_height_saturates_and_rect_new_clamps() {
    assert_eq!(board_height(9, 2), 17);
    assert_eq!(board_height(0, 5), 0);
    assert_eq!(board_width(u16::MAX, 3), u16::MAX);
    let r = Rect::new(65_530, 1, 100, 10);
    assert_eq!(r.width, 5);
    assert_eq!(r.height, 10);
}

#[test]
fn ladder_keeps_generation_order_among_equal_areas() {
    // A single-column board: the area only depends on the cell height, so
    // widths of one height keep their generation order.
    let ladder = proportional_ladder(1, 1, 3, 1);
    assert_eq!(ladder, vec![(1, 1), (2, 1), (3, 1)]);
    assert!(proportional_ladder(9, 9, 0, 0).contains(&(1, 1)));
}

#[test]
fn difficulty_labels_and_order() {
    assert_eq!(Difficulty::Easy.label(), "EASY");
    assert_eq!(Difficulty::Medium.label(), "MEDIUM");
    assert_eq!(Difficulty::Hard.label(), "HARD");
    assert_eq!(Difficulty::ALL, [Difficulty::Easy, Difficulty::Medium, Difficulty::Hard]);
}


#[test]
fn grid_cell_maps_terminal_positions_to_cells() {
    assert_eq!(grid_cell((10, 5), 2, 8, 8, 10, 5), Some((0, 0)));
    assert_eq!(grid_cell((10, 5), 2, 8, 8, 13, 7), Some((2, 1)));
    assert_eq!(grid_cell((10, 5), 2, 8, 8, 9, 7), None);
    assert_eq!(grid_cell((10, 5), 2, 8, 8, 26, 5), None);
    assert_eq!(grid_cell((10, 5), 2, 8, 8, 12, 13), None);
    assert_eq!(grid_cell((10, 5), 0, 8, 8, 12, 6), None);
}

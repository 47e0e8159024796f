use rand::rngs::StdRng;
use rand::{Rng, SeedableRng};
use smartasbrain::backgammon::engine::{Backgammon, Dest, Phase, Side as BgSide};
use smartasbrain::battleship::engine::{Battleship, CellView, Side as BsSide};
use smartasbrain::checkers::engine::{Checkers, Side as CkSide};
use smartasbrain::connect4::engine::{Connect4, COLS, ROWS};
use smartasbrain::dominoes::engine::{Dominoes, Side as DmSide, Status as DmStatus};
use smartasbrain::dots::engine::{Dots, Side as DtSide, BOXES, EDGES};
use smartasbrain::mancala::engine::{Mancala, STORES};

fn seeds(g: &Mancala) -> u32 {
    (0..STORES).map(|i| g.pit(i) as u32).sum()
}

#[test]
fn sowing_keeps_all_forty_eight_seeds() {
    let mut rng = StdRng::seed_from_u64(7);
    let mut g = Mancala::new();
    assert_eq!(seeds(&g), 48);
    for _ in 0..200 {
        let legal = g.legal_pits();
        if legal.is_empty() {
            break;
        }
        let pit = legal[rng.gen_range(0..legal.len())];
        assert!(g.sow(pit));
        assert_eq!(seeds(&g), 48);
    }
}

#[test]
fn open_columns_are_exactly_the_droppable_ones() {
    let mut g = Connect4::new();
    for _ in 0..ROWS {
        assert!(g.drop(0));
    }
    assert_eq!(g.open_columns(), (1..COLS).collect::<Vec<_>>());
    assert!(!g.drop(0));
    assert!(g.drop(1));
}

#[test]
fn a_jump_takes_exactly_one_piece() {
    let sq = |r: usize, c: usize| r * 8 + c;
    let mut g = Checkers::test_position(
        CkSide::White,
        &[(sq(5, 2), CkSide::White, false), (sq(4, 3), CkSide::Black, false), (sq(0, 1), CkSide::Black, false)],
    );
    assert_eq!(g.counts(), (1, 2));
    assert!(g.play(sq(5, 2), sq(3, 4)));
    assert_eq!(g.counts(), (1, 1));
}

fn checkers_of(g: &Backgammon, side: BgSide) -> u32 {
    let on_points: u32 = g
        .points()
        .iter()
        .map(|&v| match side {
            BgSide::White if v > 0 => v as u32,
            BgSide::Black if v < 0 => (-v) as u32,
            _ => 0,
        })
        .sum();
    let (bw, bb) = g.bar();
    let (ow, ob) = g.off();
    on_points
        + match side {
            BgSide::White => bw as u32 + ow as u32,
            BgSide::Black => bb as u32 + ob as u32,
        }
}

#[test]
fn backgammon_moves_keep_fifteen_checkers_a_side() {
    let mut rng = StdRng::seed_from_u64(11);
    let mut g = Backgammon::new();
    for _ in 0..300 {
        if g.phase() == Phase::GameOver {
            break;
        }
        if g.phase() == Phase::Roll {
            g.roll_with(rng.gen_range(1..=6), rng.gen_range(1..=6));
            continue;
        }
        let movable = g.movable();
        if movable.is_empty() {
            break;
        }
        let from = movable[rng.gen_range(0..movable.len())];
        let dests = g.destinations(from);
        let (dest, _) = dests[rng.gen_range(0..dests.len())];
        assert!(g.move_checker(from, dest).is_ok());
        assert_eq!(checkers_of(&g, BgSide::White), 15);
        assert_eq!(checkers_of(&g, BgSide::Black), 15);
        let _ = Dest::Off;
    }
}

#[test]
fn dots_scores_equal_owned_boxes() {
    let mut rng = StdRng::seed_from_u64(3);
    let mut g = Dots::new();
    while g.status().is_ongoing() {
        let open = g.open_edges();
        let e = open[rng.gen_range(0..open.len())];
        assert!(e < EDGES);
        assert!(g.play(e));
        let owned = |side: DtSide| {
            (0..BOXES)
                .flat_map(|r| (0..BOXES).map(move |c| (r, c)))
                .filter(|&(r, c)| g.box_owner(r, c) == Some(side))
                .count()
        };
        assert_eq!(g.score(DtSide::White), owned(DtSide::White));
        assert_eq!(g.score(DtSide::Black), owned(DtSide::Black));
    }
}

#[test]
fn dominoes_keep_twenty_eight_tiles_in_play() {
    let mut g = Dominoes::default();
    let count = |g: &Dominoes| {
        g.hand(DmSide::White).len() + g.hand(DmSide::Black).len() + g.boneyard_len() + g.line().len() / 2
    };
    assert_eq!(count(&g), 28);
    for _ in 0..200 {
        if g.status() != DmStatus::Ongoing {
            break;
        }
        if g.must_draw() {
            assert!(g.draw_one());
        } else if let Some(&(idx, _, _)) = g.legal_moves().first() {
            assert!(g.play(idx));
        } else {
            assert!(g.pass());
        }
        assert_eq!(count(&g), 28);
    }
}

#[test]
fn a_ship_sinks_exactly_with_its_last_cell() {
    let mut g = Battleship::default();
    g.restore_state(
        BsSide::White,
        [
            vec![(smartasbrain::battleship::engine::ShipKind::Destroyer, vec![90, 91])],
            vec![(smartasbrain::battleship::engine::ShipKind::Destroyer, vec![10, 11])],
        ],
        [[false; 100], [false; 100]],
    );
    assert!(g.fire(10).is_some());
    assert_eq!(g.enemy_view(BsSide::White)[10], CellView::Hit);
    assert!(g.fire(50).is_some());
    assert!(g.fire(11).is_some());
    assert_eq!(g.enemy_view(BsSide::White)[10], CellView::Sunk);
    assert_eq!(g.enemy_view(BsSide::White)[11], CellView::Sunk);
}

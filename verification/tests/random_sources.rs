use rand::rngs::StdRng;
use rand::SeedableRng;
use smartasbrain::battleship::engine::{Battleship, Side as BsSide};
use smartasbrain::dominoes::engine::{Dominoes, Side as DmSide};

#[test]
fn fresh_deals_are_shuffled() {
    let first: Vec<_> = Dominoes::default().hand(DmSide::White).to_vec();
    let varied = (0..20).any(|_| Dominoes::default().hand(DmSide::White).to_vec() != first);
    assert!(varied, "twenty deals all gave the same hand");
}

#[test]
fn fresh_fleets_are_placed_at_random() {
    let first = Battleship::default().fleet_cells(BsSide::White);
    let varied = (0..20).any(|_| Battleship::default().fleet_cells(BsSide::White) != first);
    assert!(varied, "twenty placements were identical");
}

#[test]
fn one_seed_gives_one_deal_and_one_fleet() {
    let a = Dominoes::new(&mut StdRng::seed_from_u64(42));
    let b = Dominoes::new(&mut StdRng::seed_from_u64(42));
    assert_eq!(a.hand(DmSide::White), b.hand(DmSide::White));
    assert_eq!(a.hand(DmSide::Black), b.hand(DmSide::Black));
    let f = Battleship::new(&mut StdRng::seed_from_u64(42));
    let g = Battleship::new(&mut StdRng::seed_from_u64(42));
    assert_eq!(f.fleet_cells(BsSide::White), g.fleet_cells(BsSide::White));
    assert_eq!(f.fleet_cells(BsSide::Black), g.fleet_cells(BsSide::Black));
}

use smartasbrain::battleship::engine::{Battleship, ShipKind, Side, Status};
use smartasbrain::battleship::snapshot::encode;

fn fleets() -> [Vec<(ShipKind, Vec<usize>)>; 2] {
    [
        vec![(ShipKind::Destroyer, vec![0, 1]), (ShipKind::Cruiser, vec![20, 30, 40])],
        vec![(ShipKind::Carrier, vec![55, 56, 57, 58, 59])],
    ]
}

#[test]
fn battleship_snapshot_round_trips_mid_battle() {
    let mut masks = [[false; 100]; 2];
    masks[0][0] = true;
    masks[0][1] = true;
    masks[1][99] = true;
    let mut g = Battleship::default();
    g.restore_state(Side::Black, fleets(), masks);
    let blob = encode(&g);
    let mut h = Battleship::default();
    assert!(h.restore_snapshot(&blob));
    assert_eq!(h.turn(), Side::Black);
    assert_eq!(h.incoming_masks(), g.incoming_masks());
    assert_eq!(h.fleet_cells(Side::White), g.fleet_cells(Side::White));
    assert_eq!(h.fleet_cells(Side::Black), g.fleet_cells(Side::Black));
    assert_eq!(h.status(), Status::Ongoing);
    assert_eq!(encode(&h), blob);
}

#[test]
fn battleship_snapshot_text_layout() {
    let mut masks = [[false; 100]; 2];
    masks[0][0] = true;
    masks[0][5] = true;
    let mut g = Battleship::default();
    g.restore_state(Side::White, fleets(), masks);
    let text = String::from_utf8(encode(&g)).unwrap();
    let white_mask = format!("12{}", "0".repeat(23));
    let black_mask = "0".repeat(25);
    assert_eq!(
        text,
        format!("v1|W|{white_mask}|4:0,1;2:20,30,40|{black_mask}|0:55,56,57,58,59")
    );
}

#[test]
fn battleship_restore_accepts_upper_case_hex_and_marks_sunk_hulls() {
    let mask = format!("f{}", "0".repeat(24));
    let zero = "0".repeat(25);
    let blob = format!("v1|B|{zero}|4:0,1|{}|4:98,99", mask.to_uppercase());
    let mut g = Battleship::default();
    assert!(g.restore_snapshot(blob.as_bytes()));
    assert_eq!(g.turn(), Side::Black);
    assert!(g.incoming_masks()[1][0] && g.incoming_masks()[1][3]);
    assert!(!g.incoming_masks()[1][4]);
    // Black's only hull is untouched, White's is not fired at: play goes on.
    assert_eq!(g.status(), Status::Ongoing);
}

#[test]
fn battleship_malformed_snapshots_are_refused() {
    let zero = "0".repeat(25);
    let mut g = Battleship::default();
    for bad in [
        format!("v1|W|{zero}|4:0,1|{zero}"),
        format!("v1|W|{zero}|4:0,1|{zero}|9:1,2"),
        format!("v1|W|{zero}|4:0,100|{zero}|4:1,2"),
        format!("v1|W|{zero}|4|{zero}|4:1,2"),
        format!("v1|W|{}|4:0,1|{zero}|4:1,2", "g".repeat(25)),
        format!("v1|W|{zero}0|4:0,1|{zero}|4:1,2"),
        format!("v1|W|{zero}||{zero}|4:1,2"),
    ] {
        assert!(!g.restore_snapshot(bad.as_bytes()), "{bad}");
    }
}

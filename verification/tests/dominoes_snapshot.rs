use smartasbrain::dominoes::engine::{Dominoes, Side, Status, Tile};
use smartasbrain::dominoes::snapshot::{decode, encode};

fn tile(a: u8, b: u8) -> Tile {
    Tile { a, b }
}

fn sample() -> Dominoes {
    let mut g = Dominoes::default();
    g.force_state(
        [vec![tile(0, 1), tile(2, 6)], vec![tile(3, 3)]],
        vec![tile(4, 5), tile(1, 1)],
        vec![6, 6, 6, 2],
        Side::Black,
    );
    g
}

#[test]
fn snapshot_text_has_the_documented_layout() {
    let g = sample();
    let text = String::from_utf8(encode(&g)).unwrap();
    assert_eq!(text, "v1|B|01,26|33|45,11|6,6,6,2");
}

#[test]
fn snapshot_round_trips_mid_game() {
    let g = sample();
    let blob = encode(&g);
    let mut h = Dominoes::default();
    assert!(h.restore_snapshot(&blob));
    assert_eq!(h.hand(Side::White), g.hand(Side::White));
    assert_eq!(h.hand(Side::Black), g.hand(Side::Black));
    assert_eq!(h.boneyard_tiles(), g.boneyard_tiles());
    assert_eq!(h.line(), g.line());
    assert_eq!(h.turn(), Side::Black);
    assert_eq!(h.status(), Status::Ongoing);
    assert_eq!(encode(&h), blob);
}

#[test]
fn empty_hands_and_chain_encode_as_empty_fields() {
    let mut g = Dominoes::default();
    g.force_state([vec![], vec![]], vec![], vec![], Side::White);
    let blob = encode(&g);
    assert_eq!(String::from_utf8(blob.clone()).unwrap(), "v1|W||||");
    let save = decode(&blob).unwrap();
    assert!(save.white.is_empty() && save.black.is_empty() && save.boneyard.is_empty());
    assert!(save.line.is_empty());
}

#[test]
fn malformed_snapshots_are_refused_and_leave_the_game_alone() {
    let g = sample();
    let before = encode(&g);
    for bad in [
        "v2|W|01|23|45|6",
        "v1|X|01|23|45|6",
        "v1|W|01|23|45",
        "v1|W|07|23|45|6",
        "v1|W|0|23|45|6",
        "v1|W|01,|23|45|6",
        "v1|W|01|23|45|7",
        "v1|W|01|23|45|x",
        "v1|W|!0|23|45|6",
    ] {
        assert!(decode(bad.as_bytes()).is_none(), "{bad}");
        let mut h = sample();
        assert!(!h.restore_snapshot(bad.as_bytes()), "{bad}");
        assert_eq!(encode(&h), before);
    }
}

#[test]
fn halves_accept_a_plus_sign_and_skip_empty_tokens() {
    let save = decode(b"v1|W||||+4,,005").unwrap();
    assert_eq!(save.line, vec![4, 5]);
}

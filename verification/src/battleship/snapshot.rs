//! The one-line save format of a battleship game:
//! `v1|<W or B>|<white mask>|<white ships>|<black mask>|<black ships>`.
//! A mask is 25 hexadecimal digits, four cells to a digit with the lowest
//! bit first, marking the cells fired at; ships are `;`-separated groups
//! `<kind index>:<cell>,<cell>,...`.

use crate::battleship::engine::{Battleship, FLEET, ShipKind, ShipV, Side, hulls_ok};
use crate::game_core::text::{
    decimal_spec, free_of, is_digit, join_spec, lemma_join_free, lemma_parse_decimal,
    lemma_split_join, parse_u8, parse_u8_spec, push_decimal, split_bytes, split_spec,
};
use vstd::prelude::*;

verus! {

pub const BAR: u8 = 124;

pub const COMMA: u8 = 44;

pub const SEMI: u8 = 59;

pub const COLON: u8 = 58;

/// Position of the fleet kind `k` in [`FLEET`].
pub open spec fn kind_index(k: ShipKind) -> nat {
    match k {
        ShipKind::Carrier => 0,
        ShipKind::Battleship => 1,
        ShipKind::Cruiser => 2,
        ShipKind::Submarine => 3,
        ShipKind::Destroyer => 4,
    }
}

/// The nibble of mask cells `4 * i .. 4 * i + 4`, lowest cell first.
pub open spec fn nibble(mask: Seq<bool>, i: int) -> int {
    (if mask[4 * i] {
        1int
    } else {
        0
    }) + (if mask[4 * i + 1] {
        2int
    } else {
        0
    }) + (if mask[4 * i + 2] {
        4int
    } else {
        0
    }) + (if mask[4 * i + 3] {
        8int
    } else {
        0
    })
}

/// Lower-case hexadecimal digit of `n < 16`.
pub open spec fn hex_digit(n: int) -> u8 {
    if n < 10 {
        (48 + n) as u8
    } else {
        (87 + n) as u8
    }
}

pub open spec fn mask_text(mask: Seq<bool>) -> Seq<u8> {
    Seq::new(25, |i: int| hex_digit(nibble(mask, i)))
}

pub open spec fn cells_text(cells: Seq<usize>) -> Seq<u8> {
    join_spec(cells.map_values(|c: usize| decimal_spec(c as nat)), COMMA)
}

pub open spec fn ship_text(s: ShipV) -> Seq<u8> {
    decimal_spec(kind_index(s.kind)).push(COLON) + cells_text(s.cells)
}

pub open spec fn ships_text(ships: Seq<ShipV>) -> Seq<u8> {
    join_spec(ships.map_values(|s: ShipV| ship_text(s)), SEMI)
}

pub open spec fn side_text(s: Side) -> Seq<u8> {
    match s {
        Side::White => seq![87u8],
        Side::Black => seq![66u8],
    }
}

/// The snapshot text of a game.
pub open spec fn save_text(
    turn: Side,
    white: Seq<ShipV>,
    white_mask: Seq<bool>,
    black: Seq<ShipV>,
    black_mask: Seq<bool>,
) -> Seq<u8> {
    join_spec(
        seq![
            seq![118u8, 49u8],
            side_text(turn),
            mask_text(white_mask),
            ships_text(white),
            mask_text(black_mask),
            ships_text(black),
        ],
        BAR,
    )
}

/// Value of a hexadecimal digit of either case.
pub open spec fn hex_value(c: u8) -> Option<int> {
    if 48 <= c <= 57 {
        Some(c - 48)
    } else if 97 <= c <= 102 {
        Some(c - 87)
    } else if 65 <= c <= 70 {
        Some(c - 55)
    } else {
        None
    }
}

/// Bit `b` (0 to 3) of `n`.
pub open spec fn bit_of(n: int, b: int) -> bool {
    if b == 0 {
        n % 2 == 1
    } else if b == 1 {
        (n / 2) % 2 == 1
    } else if b == 2 {
        (n / 4) % 2 == 1
    } else {
        (n / 8) % 2 == 1
    }
}

/// A mask field: exactly 25 hexadecimal digits.
pub open spec fn mask_of_text(p: Seq<u8>) -> Option<Seq<bool>> {
    if p.len() == 25 && forall|i: int| 0 <= i < 25 ==> #[trigger] hex_value(p[i]) is Some {
        Some(Seq::new(100, |j: int| bit_of(hex_value(p[j / 4])->0, j % 4)))
    } else {
        None
    }
}

/// Cells: comma-separated numbers below 100.
pub open spec fn cells_of_tokens(toks: Seq<Seq<u8>>) -> Option<Seq<usize>>
    decreases toks.len(),
{
    if toks.len() == 0 {
        Some(Seq::empty())
    } else {
        match (cells_of_tokens(toks.drop_last()), parse_u8_spec(toks.last())) {
            (Some(a), Some(v)) => if v < 100 {
                Some(a.push(v as usize))
            } else {
                None
            },
            _ => None,
        }
    }
}

/// Index of the first `c` in `s` at or after `i` (the length when none).
pub open spec fn find_from(s: Seq<u8>, c: u8, i: int) -> int
    decreases s.len() - i,
{
    if i >= s.len() || i < 0 {
        s.len() as int
    } else if s[i] == c {
        i
    } else {
        find_from(s, c, i + 1)
    }
}

/// A ship group: a fleet index below 5, `:`, then its cells.
pub open spec fn ship_of_text(g: Seq<u8>) -> Option<(ShipKind, Seq<usize>)> {
    let i = find_from(g, COLON, 0);
    if i >= g.len() {
        None
    } else {
        match (parse_u8_spec(g.take(i)), cells_of_tokens(split_spec(g.skip(i + 1), COMMA))) {
            (Some(k), Some(cells)) => if k < 5 {
                Some((FLEET[k as int], cells))
            } else {
                None
            },
            _ => None,
        }
    }
}

pub open spec fn ships_of_tokens(groups: Seq<Seq<u8>>) -> Option<Seq<(ShipKind, Seq<usize>)>>
    decreases groups.len(),
{
    if groups.len() == 0 {
        Some(Seq::empty())
    } else {
        match (ships_of_tokens(groups.drop_last()), ship_of_text(groups.last())) {
            (Some(a), Some(s)) => Some(a.push(s)),
            _ => None,
        }
    }
}

pub open spec fn side_of_text(t: Seq<u8>) -> Option<Side> {
    if t == seq![87u8] {
        Some(Side::White)
    } else if t == seq![66u8] {
        Some(Side::Black)
    } else {
        None
    }
}

/// What a snapshot text reads as: turn, then each side's ships and mask.
pub open spec fn save_of_text(blob: Seq<u8>) -> Option<
    (Side, Seq<(ShipKind, Seq<usize>)>, Seq<bool>, Seq<(ShipKind, Seq<usize>)>, Seq<bool>),
> {
    let parts = split_spec(blob, BAR);
    if parts.len() != 6 || parts[0] != seq![118u8, 49u8] {
        None
    } else {
        match (
            side_of_text(parts[1]),
            mask_of_text(parts[2]),
            ships_of_tokens(split_spec(parts[3], SEMI)),
            mask_of_text(parts[4]),
            ships_of_tokens(split_spec(parts[5], SEMI)),
        ) {
            (Some(t), Some(wm), Some(ws), Some(bm), Some(bs)) => Some((t, ws, wm, bs, bm)),
            _ => None,
        }
    }
}

/// Ship lists as the engine takes them, viewed as plain sequences.
pub open spec fn ships_view(v: Seq<(ShipKind, Vec<usize>)>) -> Seq<(ShipKind, Seq<usize>)> {
    v.map_values(|p: (ShipKind, Vec<usize>)| (p.0, p.1@))
}

fn push_mask(out: &mut Vec<u8>, mask: &[bool; 100])
    ensures
        final(out)@ == old(out)@ + mask_text(mask@),
{
    let ghost o = out@;
    let mut i: usize = 0;
    while i < 25
        invariant
            0 <= i <= 25,
            out@ == o + mask_text(mask@).take(i as int),
        decreases 25 - i,
    {
        let mut n: u8 = 0;
        if mask[4 * i] {
            n = n + 1;
        }
        if mask[4 * i + 1] {
            n = n + 2;
        }
        if mask[4 * i + 2] {
            n = n + 4;
        }
        if mask[4 * i + 3] {
            n = n + 8;
        }
        assert(n == nibble(mask@, i as int));
        let d = if n < 10 {
            48 + n
        } else {
            87 + n
        };
        out.push(d);
        assert(mask_text(mask@).take(i + 1) =~= mask_text(mask@).take(i as int).push(d));
        i += 1;
    }
    assert(mask_text(mask@).take(25) =~= mask_text(mask@));
}

fn push_cells(out: &mut Vec<u8>, cells: &Vec<usize>)
    requires
        forall|j: int| 0 <= j < cells@.len() ==> #[trigger] cells@[j] < 100,
    ensures
        final(out)@ == old(out)@ + cells_text(cells@),
{
    let ghost o = out@;
    let mut i: usize = 0;
    while i < cells.len()
        invariant
            0 <= i <= cells@.len(),
            forall|j: int| 0 <= j < cells@.len() ==> #[trigger] cells@[j] < 100,
            out@ == o + cells_text(cells@.take(i as int)),
        decreases cells@.len() - i,
    {
        let ghost prev = cells@.take(i as int).map_values(|c: usize| decimal_spec(c as nat));
        let ghost next = cells@.take(i + 1).map_values(|c: usize| decimal_spec(c as nat));
        assert(next =~= prev.push(decimal_spec(cells@[i as int] as nat)));
        assert(next.drop_last() =~= prev);
        if i > 0 {
            out.push(COMMA);
        }
        let c = cells[i];
        push_decimal(out, c as u8);
        proof {
            if i == 0 {
                assert(prev.len() == 0);
            }
            assert(out@ =~= o + cells_text(cells@.take(i + 1)));
        }
        i += 1;
    }
    assert(cells@.take(cells@.len() as int) =~= cells@);
}

fn kind_number(k: ShipKind) -> (r: u8)
    ensures
        r == kind_index(k),
{
    match k {
        ShipKind::Carrier => 0,
        ShipKind::Battleship => 1,
        ShipKind::Cruiser => 2,
        ShipKind::Submarine => 3,
        ShipKind::Destroyer => 4,
    }
}

fn push_ships(out: &mut Vec<u8>, ships: &Vec<(ShipKind, Vec<usize>)>, Ghost(sv): Ghost<Seq<ShipV>>)
    requires
        ships@.len() == sv.len(),
        forall|k: int|
            0 <= k < ships@.len() ==> (#[trigger] ships@[k]).0 == sv[k].kind && ships@[k].1@ == sv[k].cells,
        hulls_ok(sv),
    ensures
        final(out)@ == old(out)@ + ships_text(sv),
{
    let ghost o = out@;
    let mut i: usize = 0;
    while i < ships.len()
        invariant
            0 <= i <= ships@.len(),
            ships@.len() == sv.len(),
            forall|k: int|
                0 <= k < ships@.len() ==> (#[trigger] ships@[k]).0 == sv[k].kind && ships@[k].1@ == sv[k].cells,
            hulls_ok(sv),
            out@ == o + ships_text(sv.take(i as int)),
        decreases ships@.len() - i,
    {
        let ghost prev = sv.take(i as int).map_values(|s: ShipV| ship_text(s));
        let ghost next = sv.take(i + 1).map_values(|s: ShipV| ship_text(s));
        assert(next =~= prev.push(ship_text(sv[i as int])));
        assert(next.drop_last() =~= prev);
        let ghost before = out@;
        if i > 0 {
            out.push(SEMI);
        }
        let ghost mid = out@;
        push_decimal(out, kind_number(ships[i].0));
        out.push(COLON);
        assert forall|j: int| 0 <= j < ships@[i as int].1@.len() implies #[trigger] ships@[i as int].1@[j] < 100 by {
            assert(sv[i as int].cells[j] < 100);
        }
        push_cells(out, &ships[i].1);
        proof {
            assert(out@ =~= mid + ship_text(sv[i as int]));
            if i == 0 {
                assert(prev.len() == 0);
            }
            assert(out@ =~= o + ships_text(sv.take(i + 1)));
        }
        i += 1;
    }
    assert(sv.take(ships@.len() as int) =~= sv);
}

/// The snapshot of `g`.
pub fn encode(g: &Battleship) -> (r: Vec<u8>)
    requires
        g.wf(),
    ensures
        r@ == save_text(
            g.turn_spec(),
            g.ships_of(Side::White),
            g.incoming_of(Side::White),
            g.ships_of(Side::Black),
            g.incoming_of(Side::Black),
        ),
{
    let masks = g.incoming_masks();
    let white = g.fleet_cells(Side::White);
    let black = g.fleet_cells(Side::Black);
    let mut out: Vec<u8> = Vec::new();
    out.push(118);
    out.push(49);
    let ghost p1 = seq![seq![118u8, 49u8]];
    assert(out@ =~= join_spec(p1, BAR));
    out.push(BAR);
    match g.turn() {
        Side::White => out.push(87),
        Side::Black => out.push(66),
    }
    let ghost p2 = p1.push(side_text(g.turn_spec()));
    assert(out@ =~= join_spec(p2, BAR)) by {
        assert(p2.drop_last() =~= p1);
        match g.turn_spec() {
            Side::White => {},
            Side::Black => {},
        }
    }
    out.push(BAR);
    let wm = masks[0];
    push_mask(&mut out, &wm);
    let ghost p3 = p2.push(mask_text(g.incoming_of(Side::White)));
    assert(out@ =~= join_spec(p3, BAR)) by {
        assert(p3.drop_last() =~= p2);
    }
    out.push(BAR);
    push_ships(&mut out, &white, Ghost(g.ships_of(Side::White)));
    let ghost p4 = p3.push(ships_text(g.ships_of(Side::White)));
    assert(out@ =~= join_spec(p4, BAR)) by {
        assert(p4.drop_last() =~= p3);
    }
    out.push(BAR);
    let bm = masks[1];
    push_mask(&mut out, &bm);
    let ghost p5 = p4.push(mask_text(g.incoming_of(Side::Black)));
    assert(out@ =~= join_spec(p5, BAR)) by {
        assert(p5.drop_last() =~= p4);
    }
    out.push(BAR);
    push_ships(&mut out, &black, Ghost(g.ships_of(Side::Black)));
    let ghost p6 = p5.push(ships_text(g.ships_of(Side::Black)));
    assert(out@ =~= join_spec(p6, BAR)) by {
        assert(p6.drop_last() =~= p5);
    }
    assert(p6 =~= seq![
        seq![118u8, 49u8],
        side_text(g.turn_spec()),
        mask_text(g.incoming_of(Side::White)),
        ships_text(g.ships_of(Side::White)),
        mask_text(g.incoming_of(Side::Black)),
        ships_text(g.ships_of(Side::Black)),
    ]);
    out
}

fn hex_of(c: u8) -> (r: Option<u8>)
    ensures
        match r {
            Some(n) => hex_value(c) == Some(n as int) && n < 16,
            None => hex_value(c) is None,
        },
{
    if 48 <= c && c <= 57 {
        Some(c - 48)
    } else if 97 <= c && c <= 102 {
        Some(c - 87)
    } else if 65 <= c && c <= 70 {
        Some(c - 55)
    } else {
        None
    }
}

fn mask_from(p: &[u8]) -> (r: Option<[bool; 100]>)
    ensures
        match r {
            Some(m) => mask_of_text(p@) == Some(m@),
            None => mask_of_text(p@) is None,
        },
{
    if p.len() != 25 {
        return None;
    }
    let mut mask: [bool; 100] = [false; 100];
    let mut i: usize = 0;
    while i < 25
        invariant
            0 <= i <= 25,
            p@.len() == 25,
            forall|q: int| 0 <= q < i ==> #[trigger] hex_value(p@[q]) is Some,
            forall|j: int| 0 <= j < 4 * i ==> #[trigger] mask@[j] == bit_of(hex_value(p@[j / 4])->0, j % 4),
        decreases 25 - i,
    {
        let n = match hex_of(p[i]) {
            Some(n) => n,
            None => {
                assert(!(forall|q: int| 0 <= q < 25 ==> #[trigger] hex_value(p@[q]) is Some));
                return None;
            },
        };
        mask[4 * i] = n % 2 == 1;
        mask[4 * i + 1] = (n / 2) % 2 == 1;
        mask[4 * i + 2] = (n / 4) % 2 == 1;
        mask[4 * i + 3] = (n / 8) % 2 == 1;
        assert forall|j: int| 0 <= j < 4 * (i + 1) implies #[trigger] mask@[j] == bit_of(hex_value(p@[j / 4])->0, j % 4) by {
            if j >= 4 * i {
                assert(j / 4 == i);
            }
        }
        i += 1;
    }
    assert(mask@ =~= Seq::new(100, |j: int| bit_of(hex_value(p@[j / 4])->0, j % 4)));
    Some(mask)
}

proof fn lemma_cells_prefix_none(toks: Seq<Seq<u8>>, k: int)
    requires
        0 <= k <= toks.len(),
        cells_of_tokens(toks.take(k)) is None,
    ensures
        cells_of_tokens(toks) is None,
    decreases toks.len() - k,
{
    if k < toks.len() {
        assert(toks.take(k + 1).drop_last() =~= toks.take(k));
        lemma_cells_prefix_none(toks, k + 1);
    } else {
        assert(toks.take(k) =~= toks);
    }
}

proof fn lemma_ships_prefix_none(toks: Seq<Seq<u8>>, k: int)
    requires
        0 <= k <= toks.len(),
        ships_of_tokens(toks.take(k)) is None,
    ensures
        ships_of_tokens(toks) is None,
    decreases toks.len() - k,
{
    if k < toks.len() {
        assert(toks.take(k + 1).drop_last() =~= toks.take(k));
        lemma_ships_prefix_none(toks, k + 1);
    } else {
        assert(toks.take(k) =~= toks);
    }
}

proof fn lemma_find_from(s: Seq<u8>, c: u8, i: int)
    requires
        0 <= i <= s.len(),
    ensures
        i <= find_from(s, c, i) <= s.len(),
        find_from(s, c, i) < s.len() ==> s[find_from(s, c, i)] == c,
        forall|j: int| i <= j < find_from(s, c, i) ==> s[j] != c,
    decreases s.len() - i,
{
    if i < s.len() && s[i] != c {
        lemma_find_from(s, c, i + 1);
    }
}

fn cells_from(p: &[u8]) -> (r: Option<Vec<usize>>)
    ensures
        match r {
            Some(v) => cells_of_tokens(split_spec(p@, COMMA)) == Some(v@),
            None => cells_of_tokens(split_spec(p@, COMMA)) is None,
        },
{
    let toks = split_bytes(p, COMMA);
    let ghost tv = split_spec(p@, COMMA);
    let mut out: Vec<usize> = Vec::new();
    let mut k: usize = 0;
    while k < toks.len()
        invariant
            0 <= k <= toks@.len(),
            toks@.len() == tv.len(),
            tv == split_spec(p@, COMMA),
            forall|j: int| 0 <= j < toks@.len() ==> (#[trigger] toks@[j])@ == tv[j],
            cells_of_tokens(tv.take(k as int)) == Some(out@),
        decreases toks@.len() - k,
    {
        let t = &toks[k];
        assert(t@ == tv[k as int]);
        assert(tv.take(k + 1).drop_last() =~= tv.take(k as int));
        assert(tv.take(k + 1).last() == tv[k as int]);
        match parse_u8(t.as_slice()) {
            Some(v) => {
                if v >= 100 {
                    proof {
                        assert(cells_of_tokens(tv.take(k + 1)) is None);
                        lemma_cells_prefix_none(tv, k + 1);
                    }
                    return None;
                }
                out.push(v as usize);
            },
            None => {
                proof {
                    assert(cells_of_tokens(tv.take(k + 1)) is None);
                    lemma_cells_prefix_none(tv, k + 1);
                }
                return None;
            },
        }
        k += 1;
    }
    assert(tv.take(toks@.len() as int) =~= tv);
    Some(out)
}

fn fleet_kind_at(i: u8) -> (k: ShipKind)
    requires
        i < 5,
    ensures
        k == FLEET[i as int],
{
    match i {
        0 => ShipKind::Carrier,
        1 => ShipKind::Battleship,
        2 => ShipKind::Cruiser,
        3 => ShipKind::Submarine,
        _ => ShipKind::Destroyer,
    }
}

fn ship_from(g: &[u8]) -> (r: Option<(ShipKind, Vec<usize>)>)
    ensures
        match r {
            Some(s) => ship_of_text(g@) == Some((s.0, s.1@)),
            None => ship_of_text(g@) is None,
        },
{
    let mut i: usize = 0;
    while i < g.len() && g[i] != COLON
        invariant
            0 <= i <= g@.len(),
            find_from(g@, COLON, 0) == find_from(g@, COLON, i as int),
        decreases g@.len() - i,
    {
        i += 1;
    }
    proof {
        lemma_find_from(g@, COLON, 0);
    }
    if i >= g.len() {
        return None;
    }
    let mut head: Vec<u8> = Vec::new();
    let mut j: usize = 0;
    while j < i
        invariant
            0 <= j <= i,
            i < g@.len(),
            head@ == g@.take(j as int),
        decreases i - j,
    {
        head.push(g[j]);
        assert(g@.take(j + 1) =~= g@.take(j as int).push(g@[j as int]));
        j += 1;
    }
    let mut tail: Vec<u8> = Vec::new();
    let mut t: usize = i + 1;
    while t < g.len()
        invariant
            i + 1 <= t <= g@.len(),
            tail@ == g@.subrange(i + 1, t as int),
        decreases g@.len() - t,
    {
        tail.push(g[t]);
        assert(g@.subrange(i + 1, t + 1) =~= g@.subrange(i + 1, t as int).push(g@[t as int]));
        t += 1;
    }
    assert(tail@ =~= g@.skip(i + 1));
    let k = match parse_u8(head.as_slice()) {
        Some(k) => k,
        None => return None,
    };
    let cells = match cells_from(tail.as_slice()) {
        Some(c) => c,
        None => return None,
    };
    if k >= 5 {
        return None;
    }
    Some((fleet_kind_at(k), cells))
}

fn ships_from(p: &[u8]) -> (r: Option<Vec<(ShipKind, Vec<usize>)>>)
    ensures
        match r {
            Some(v) => ships_of_tokens(split_spec(p@, SEMI)) == Some(ships_view(v@)),
            None => ships_of_tokens(split_spec(p@, SEMI)) is None,
        },
{
    let groups = split_bytes(p, SEMI);
    let ghost tv = split_spec(p@, SEMI);
    let mut out: Vec<(ShipKind, Vec<usize>)> = Vec::new();
    let mut k: usize = 0;
    while k < groups.len()
        invariant
            0 <= k <= groups@.len(),
            groups@.len() == tv.len(),
            tv == split_spec(p@, SEMI),
            forall|j: int| 0 <= j < groups@.len() ==> (#[trigger] groups@[j])@ == tv[j],
            ships_of_tokens(tv.take(k as int)) == Some(ships_view(out@)),
        decreases groups@.len() - k,
    {
        let g = &groups[k];
        assert(g@ == tv[k as int]);
        assert(tv.take(k + 1).drop_last() =~= tv.take(k as int));
        assert(tv.take(k + 1).last() == tv[k as int]);
        match ship_from(g.as_slice()) {
            Some(s) => {
                let ghost sv = (s.0, s.1@);
                out.push(s);
                assert(ships_view(out@) =~= ships_view(out@.drop_last()).push(sv));
            },
            None => {
                proof {
                    assert(ships_of_tokens(tv.take(k + 1)) is None);
                    lemma_ships_prefix_none(tv, k + 1);
                }
                return None;
            },
        }
        k += 1;
    }
    assert(tv.take(groups@.len() as int) =~= tv);
    Some(out)
}

/// Every cell of the listed ships lies on the board.
pub open spec fn cells_on_board(v: Seq<(ShipKind, Seq<usize>)>) -> bool {
    forall|k: int, j: int| 0 <= k < v.len() && 0 <= j < v[k].1.len() ==> #[trigger] v[k].1[j] < 100
}

proof fn lemma_cells_tokens_small(toks: Seq<Seq<u8>>)
    ensures
        cells_of_tokens(toks) matches Some(c) ==> forall|j: int| 0 <= j < c.len() ==> #[trigger] c[j] < 100,
    decreases toks.len(),
{
    if toks.len() > 0 {
        lemma_cells_tokens_small(toks.drop_last());
        if let Some(c) = cells_of_tokens(toks) {
            let a = cells_of_tokens(toks.drop_last())->0;
            assert forall|j: int| 0 <= j < c.len() implies #[trigger] c[j] < 100 by {
                if j < a.len() {
                    assert(c[j] == a[j]);
                }
            }
        }
    }
}

proof fn lemma_ships_tokens_small(toks: Seq<Seq<u8>>)
    ensures
        ships_of_tokens(toks) matches Some(v) ==> cells_on_board(v),
    decreases toks.len(),
{
    if toks.len() > 0 {
        lemma_ships_tokens_small(toks.drop_last());
        if let Some(v) = ships_of_tokens(toks) {
            let g = toks.last();
            let i = find_from(g, COLON, 0);
            lemma_cells_tokens_small(split_spec(g.skip(i + 1), COMMA));
            let a = ships_of_tokens(toks.drop_last())->0;
            assert forall|k: int, j: int| 0 <= k < v.len() && 0 <= j < v[k].1.len() implies #[trigger] v[k].1[j] < 100 by {
                if k < a.len() {
                    assert(v[k] == a[k]);
                }
            }
        }
    }
}

impl Battleship {
    /// Restores the game a snapshot text describes; refused, leaving the
    /// game as it was, when the text is not a snapshot. Ships are marked
    /// sunk when their whole hull was fired at.
    pub fn restore_snapshot(&mut self, blob: &[u8]) -> (ok: bool)
        requires
            old(self).wf(),
        ensures
            final(self).wf(),
            ok == save_of_text(blob@) is Some,
            !ok ==> *final(self) == *old(self),
            ok ==> ({
                let v = save_of_text(blob@)->0;
                &&& final(self).turn_spec() == v.0
                &&& final(self).incoming_of(Side::White) == v.2
                &&& final(self).incoming_of(Side::Black) == v.4
                &&& final(self).ships_of(Side::White).map_values(|s: ShipV| (s.kind, s.cells)) == v.1
                &&& final(self).ships_of(Side::Black).map_values(|s: ShipV| (s.kind, s.cells)) == v.3
                &&& final(self).last_shot_spec() is None
            }),
    {
        let parts = split_bytes(blob, BAR);
        let ghost pv = split_spec(blob@, BAR);
        if parts.len() != 6 {
            return false;
        }
        assert(parts@[0]@ == pv[0]);
        if parts[0].len() != 2 || parts[0][0] != 118 || parts[0][1] != 49 {
            proof {
                if pv[0] == seq![118u8, 49u8] {
                    assert(pv[0][0] == 118 && pv[0][1] == 49);
                }
            }
            return false;
        }
        assert(pv[0] =~= seq![118u8, 49u8]);
        assert(parts@[1]@ == pv[1]);
        let turn = if parts[1].len() == 1 && parts[1][0] == 87 {
            assert(pv[1] =~= seq![87u8]);
            Side::White
        } else if parts[1].len() == 1 && parts[1][0] == 66 {
            assert(pv[1] =~= seq![66u8]);
            Side::Black
        } else {
            proof {
                if pv[1] == seq![87u8] || pv[1] == seq![66u8] {
                    assert(pv[1].len() == 1);
                    assert(pv[1][0] == 87 || pv[1][0] == 66);
                }
            }
            return false;
        };
        assert(parts@[2]@ == pv[2]);
        assert(parts@[3]@ == pv[3]);
        assert(parts@[4]@ == pv[4]);
        assert(parts@[5]@ == pv[5]);
        let white_mask = match mask_from(parts[2].as_slice()) {
            Some(m) => m,
            None => return false,
        };
        let white = match ships_from(parts[3].as_slice()) {
            Some(v) => v,
            None => return false,
        };
        let black_mask = match mask_from(parts[4].as_slice()) {
            Some(m) => m,
            None => return false,
        };
        let black = match ships_from(parts[5].as_slice()) {
            Some(v) => v,
            None => return false,
        };
        proof {
            lemma_ships_tokens_small(split_spec(pv[3], SEMI));
            lemma_ships_tokens_small(split_spec(pv[5], SEMI));
        }
        let ghost wv = white@;
        let ghost bv = black@;
        let sides = [white, black];
        assert(sides@[0]@ == wv && sides@[1]@ == bv);
        assert forall|s: int, k: int, j: int|
            0 <= s < 2 && 0 <= k < sides@[s]@.len() && 0 <= j < sides@[s]@[k].1@.len() implies #[trigger] sides@[s]@[k].1@[j] < 100 by {
            if s == 0 {
                assert(ships_view(wv)[k].1[j] == wv[k].1@[j]);
            } else {
                assert(ships_view(bv)[k].1[j] == bv[k].1@[j]);
            }
        }
        self.restore_state(turn, sides, [white_mask, black_mask]);
        proof {
            let wr = crate::battleship::engine::rebuilt(wv, white_mask@);
            let br = crate::battleship::engine::rebuilt(bv, black_mask@);
            assert(wr.map_values(|s: ShipV| (s.kind, s.cells)) =~= ships_view(wv));
            assert(br.map_values(|s: ShipV| (s.kind, s.cells)) =~= ships_view(bv));
        }
        true
    }
}

/// The fleet as the save format lists it: kind and cells of each ship.
pub open spec fn fleet_view(ships: Seq<ShipV>) -> Seq<(ShipKind, Seq<usize>)> {
    ships.map_values(|s: ShipV| (s.kind, s.cells))
}

/// Every ship has at least one cell, all on the board, and there is at
/// least one ship: the shape a snapshot can carry.
pub open spec fn savable(ships: Seq<ShipV>) -> bool {
    &&& ships.len() >= 1
    &&& hulls_ok(ships)
    &&& forall|k: int| 0 <= k < ships.len() ==> (#[trigger] ships[k]).cells.len() >= 1
}

proof fn lemma_nibble_bits(b0: bool, b1: bool, b2: bool, b3: bool)
    ensures
        ({
            let n = (if b0 { 1int } else { 0 }) + (if b1 { 2int } else { 0 }) + (if b2 { 4int } else { 0 })
                + (if b3 { 8int } else { 0 });
            &&& 0 <= n < 16
            &&& bit_of(n, 0) == b0
            &&& bit_of(n, 1) == b1
            &&& bit_of(n, 2) == b2
            &&& bit_of(n, 3) == b3
        }),
{
}

proof fn lemma_hex_digit(n: int)
    requires
        0 <= n < 16,
    ensures
        hex_value(hex_digit(n)) == Some(n),
        hex_digit(n) != BAR,
{
}

proof fn lemma_mask_round_trip(m: Seq<bool>)
    requires
        m.len() == 100,
    ensures
        mask_of_text(mask_text(m)) == Some(m),
        !mask_text(m).contains(BAR),
{
    let t = mask_text(m);
    assert forall|i: int| 0 <= i < 25 implies #[trigger] hex_value(t[i]) == Some(nibble(m, i)) by {
        lemma_nibble_bits(m[4 * i], m[4 * i + 1], m[4 * i + 2], m[4 * i + 3]);
        lemma_hex_digit(nibble(m, i));
    }
    assert forall|i: int| 0 <= i < 25 implies #[trigger] hex_value(t[i]) is Some by {
        assert(hex_value(t[i]) == Some(nibble(m, i)));
    }
    let back = Seq::new(100, |j: int| bit_of(hex_value(t[j / 4])->0, j % 4));
    assert forall|j: int| 0 <= j < 100 implies back[j] == m[j] by {
        let i = j / 4;
        assert(hex_value(t[i]) == Some(nibble(m, i)));
        lemma_nibble_bits(m[4 * i], m[4 * i + 1], m[4 * i + 2], m[4 * i + 3]);
        assert(j == 4 * i + j % 4);
    }
    assert(back =~= m);
    if t.contains(BAR) {
        let i = choose|i: int| 0 <= i < t.len() && t[i] == BAR;
        lemma_nibble_bits(m[4 * i], m[4 * i + 1], m[4 * i + 2], m[4 * i + 3]);
        lemma_hex_digit(nibble(m, i));
    }
}

proof fn lemma_decimal_free(v: u8, c: u8)
    requires
        !is_digit(c),
    ensures
        !decimal_spec(v as nat).contains(c),
{
    lemma_parse_decimal(v);
    if decimal_spec(v as nat).contains(c) {
        let i = choose|i: int| 0 <= i < decimal_spec(v as nat).len() && decimal_spec(v as nat)[i] == c;
        assert(is_digit(decimal_spec(v as nat)[i]));
    }
}

proof fn lemma_cells_tokens(cells: Seq<usize>)
    requires
        forall|j: int| 0 <= j < cells.len() ==> #[trigger] cells[j] < 100,
    ensures
        cells_of_tokens(cells.map_values(|c: usize| decimal_spec(c as nat))) == Some(cells),
        forall|c: u8| !is_digit(c) ==> free_of(cells.map_values(|c: usize| decimal_spec(c as nat)), c),
    decreases cells.len(),
{
    let m = cells.map_values(|c: usize| decimal_spec(c as nat));
    assert forall|c: u8| !is_digit(c) implies free_of(m, c) by {
        assert forall|k: int| 0 <= k < m.len() implies !(#[trigger] m[k]).contains(c) by {
            lemma_decimal_free(cells[k] as u8, c);
        }
    }
    if cells.len() == 0 {
        assert(cells =~= Seq::<usize>::empty());
    } else {
        let init = cells.drop_last();
        assert forall|j: int| 0 <= j < init.len() implies #[trigger] init[j] < 100 by {
            assert(init[j] == cells[j]);
        }
        lemma_cells_tokens(init);
        assert(m.drop_last() =~= init.map_values(|c: usize| decimal_spec(c as nat)));
        let v = cells.last();
        assert(v == cells[cells.len() - 1]);
        lemma_parse_decimal(v as u8);
        assert(m.last() == decimal_spec(v as nat));
        assert(init.push(v) =~= cells);
    }
}

proof fn lemma_join_len_pos(parts: Seq<Seq<u8>>, sep: u8)
    requires
        parts.len() >= 1,
        parts[0].len() >= 1,
    ensures
        join_spec(parts, sep).len() >= 1,
    decreases parts.len(),
{
    if parts.len() > 1 {
        lemma_join_len_pos(parts.drop_last(), sep);
    }
}

proof fn lemma_find_prefix(a: Seq<u8>, c: u8, b: Seq<u8>, i: int)
    requires
        !a.contains(c),
        0 <= i <= a.len(),
    ensures
        find_from(a.push(c) + b, c, i) == a.len(),
    decreases a.len() - i,
{
    let s = a.push(c) + b;
    if i < a.len() {
        assert(s[i] == a[i]);
        lemma_find_prefix(a, c, b, i + 1);
    } else {
        assert(s[i] == c);
    }
}

proof fn lemma_ship_round_trip(s: ShipV)
    requires
        s.cells.len() >= 1,
        forall|j: int| 0 <= j < s.cells.len() ==> #[trigger] s.cells[j] < 100,
    ensures
        ship_of_text(ship_text(s)) == Some((s.kind, s.cells)),
        forall|c: u8| !is_digit(c) && c != COLON && c != COMMA ==> !ship_text(s).contains(c),
{
    let k = kind_index(s.kind);
    let d = decimal_spec(k);
    let ct = cells_text(s.cells);
    let m = s.cells.map_values(|c: usize| decimal_spec(c as nat));
    lemma_parse_decimal(k as u8);
    lemma_decimal_free(k as u8, COLON);
    lemma_cells_tokens(s.cells);
    lemma_find_prefix(d, COLON, ct, 0);
    let t = ship_text(s);
    assert(t.take(d.len() as int) =~= d);
    assert(t.skip(d.len() + 1int) =~= ct);
    assert(!is_digit(COMMA));
    assert(free_of(m, COMMA));
    lemma_split_join(m, COMMA);
    assert(FLEET[k as int] == s.kind);
    assert forall|c: u8| !is_digit(c) && c != COLON && c != COMMA implies !t.contains(c) by {
        lemma_decimal_free(k as u8, c);
        assert(free_of(m, c));
        lemma_join_free(m, COMMA, c);
        if t.contains(c) {
            let i = choose|i: int| 0 <= i < t.len() && t[i] == c;
            if i < d.len() {
                assert(d[i] == c);
            } else if i > d.len() {
                assert(ct[i - d.len() - 1] == c);
            }
        }
    }
}

proof fn lemma_ships_round_trip(ships: Seq<ShipV>)
    requires
        forall|k: int| 0 <= k < ships.len() ==> (#[trigger] ships[k]).cells.len() >= 1,
        hulls_ok(ships),
    ensures
        ships_of_tokens(ships.map_values(|s: ShipV| ship_text(s))) == Some(fleet_view(ships)),
    decreases ships.len(),
{
    if ships.len() == 0 {
        assert(fleet_view(ships) =~= Seq::<(ShipKind, Seq<usize>)>::empty());
    } else {
        let init = ships.drop_last();
        assert forall|k: int| 0 <= k < init.len() implies (#[trigger] init[k]).cells.len() >= 1 by {
            assert(init[k] == ships[k]);
        }
        assert(hulls_ok(init)) by {
            assert forall|k: int, j: int| 0 <= k < init.len() && 0 <= j < init[k].cells.len() implies #[trigger] init[k].cells[j] < 100 by {
                assert(init[k] == ships[k]);
            }
        }
        lemma_ships_round_trip(init);
        let m = ships.map_values(|s: ShipV| ship_text(s));
        assert(m.drop_last() =~= init.map_values(|s: ShipV| ship_text(s)));
        let s = ships.last();
        assert(s == ships[ships.len() - 1]);
        assert forall|j: int| 0 <= j < s.cells.len() implies #[trigger] s.cells[j] < 100 by {
            assert(ships[ships.len() - 1].cells[j] < 100);
        }
        lemma_ship_round_trip(s);
        assert(m.last() == ship_text(s));
        assert(fleet_view(init).push((s.kind, s.cells)) =~= fleet_view(ships));
    }
}

proof fn lemma_ships_text_parts(ships: Seq<ShipV>)
    requires
        savable(ships),
    ensures
        ships_of_tokens(split_spec(ships_text(ships), SEMI)) == Some(fleet_view(ships)),
        !ships_text(ships).contains(BAR),
{
    let m = ships.map_values(|s: ShipV| ship_text(s));
    assert forall|c: u8| !is_digit(c) && c != COLON && c != COMMA implies free_of(m, c) by {
        assert forall|k: int| 0 <= k < m.len() implies !(#[trigger] m[k]).contains(c) by {
            let s = ships[k];
            assert forall|j: int| 0 <= j < s.cells.len() implies #[trigger] s.cells[j] < 100 by {
                assert(ships[k].cells[j] < 100);
            }
            lemma_ship_round_trip(s);
        }
    }
    assert(!is_digit(SEMI) && SEMI != COLON && SEMI != COMMA);
    assert(!is_digit(BAR) && BAR != COLON && BAR != COMMA);
    assert(free_of(m, SEMI));
    assert(free_of(m, BAR));
    lemma_split_join(m, SEMI);
    lemma_ships_round_trip(ships);
    lemma_join_free(m, SEMI, BAR);
}

/// Reading back the snapshot text of a game gives its side to move and
/// each side's ships and fired-at cells, for fleets of at least one ship
/// whose hulls have cells, all on the board.
pub proof fn law_snapshot_round_trip(
    turn: Side,
    white: Seq<ShipV>,
    white_mask: Seq<bool>,
    black: Seq<ShipV>,
    black_mask: Seq<bool>,
)
    requires
        savable(white),
        savable(black),
        white_mask.len() == 100,
        black_mask.len() == 100,
    ensures
        save_of_text(save_text(turn, white, white_mask, black, black_mask)) == Some(
            (turn, fleet_view(white), white_mask, fleet_view(black), black_mask),
        ),
{
    let parts = seq![
        seq![118u8, 49u8],
        side_text(turn),
        mask_text(white_mask),
        ships_text(white),
        mask_text(black_mask),
        ships_text(black),
    ];
    lemma_mask_round_trip(white_mask);
    lemma_mask_round_trip(black_mask);
    lemma_ships_text_parts(white);
    lemma_ships_text_parts(black);
    assert(free_of(parts, BAR)) by {
        assert forall|k: int| 0 <= k < parts.len() implies !(#[trigger] parts[k]).contains(BAR) by {
            if k == 0 {
                if parts[0].contains(BAR) {
                    let i = choose|i: int| 0 <= i < 2 && parts[0][i] == BAR;
                }
            } else if k == 1 {
                if parts[1].contains(BAR) {
                    let i = choose|i: int| 0 <= i < parts[1].len() && parts[1][i] == BAR;
                    match turn {
                        Side::White => {},
                        Side::Black => {},
                    }
                }
            }
        }
    }
    lemma_split_join(parts, BAR);
    match turn {
        Side::White => {
            assert(side_text(turn) =~= seq![87u8]);
        },
        Side::Black => {
            assert(side_text(turn) =~= seq![66u8]);
            assert(seq![66u8] != seq![87u8]) by {
                assert(seq![66u8][0] != seq![87u8][0]);
            }
        },
    }
}

} // verus!

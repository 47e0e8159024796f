//! The one-line save format of a dominoes game:
//! `v1|<W or B>|<white hand>|<black hand>|<yard>|<laid halves>`, where a
//! hand or the yard lists its tiles as two digits each, separated by
//! commas, and the laid halves are comma-separated numbers.

use crate::dominoes::engine::{Dominoes, Side, Tile, pips_of, tiles_ok};
use crate::game_core::text::{
    decimal_spec, free_of, is_digit, join_spec, lemma_join_free, lemma_parse_decimal,
    lemma_split_join, lemma_split_nonempty, parse_u8, parse_u8_spec, push_decimal, split_bytes,
    split_spec,
};
use vstd::prelude::*;

verus! {

/// Byte of the field separator `|`.
pub const BAR: u8 = 124;

/// Byte of the list separator `,`.
pub const COMMA: u8 = 44;

/// A decoded save: side to move, both hands, the yard in draw order and
/// the laid halves.
pub struct Save {
    pub turn: Side,
    pub white: Vec<Tile>,
    pub black: Vec<Tile>,
    pub boneyard: Vec<Tile>,
    pub line: Vec<u8>,
}

/// What a save holds, as plain sequences.
pub open spec fn save_view(s: Save) -> (Side, Seq<Tile>, Seq<Tile>, Seq<Tile>, Seq<u8>) {
    (s.turn, s.white@, s.black@, s.boneyard@, s.line@)
}

pub open spec fn header() -> Seq<u8> {
    seq![118u8, 49u8]
}

pub open spec fn side_text(s: Side) -> Seq<u8> {
    match s {
        Side::White => seq![87u8],
        Side::Black => seq![66u8],
    }
}

/// A tile as its two pip values written one after the other.
pub open spec fn tile_text(t: Tile) -> Seq<u8> {
    decimal_spec(t.a as nat) + decimal_spec(t.b as nat)
}

pub open spec fn tiles_text(ts: Seq<Tile>) -> Seq<u8> {
    join_spec(ts.map_values(|t: Tile| tile_text(t)), COMMA)
}

pub open spec fn halves_text(line: Seq<u8>) -> Seq<u8> {
    join_spec(line.map_values(|v: u8| decimal_spec(v as nat)), COMMA)
}

/// The snapshot text of a game.
pub open spec fn save_text(
    turn: Side,
    white: Seq<Tile>,
    black: Seq<Tile>,
    yard: Seq<Tile>,
    line: Seq<u8>,
) -> Seq<u8> {
    join_spec(
        seq![
            header(),
            side_text(turn),
            tiles_text(white),
            tiles_text(black),
            tiles_text(yard),
            halves_text(line),
        ],
        BAR,
    )
}

pub open spec fn side_of_text(t: Seq<u8>) -> Option<Side> {
    if t == seq![87u8] {
        Some(Side::White)
    } else if t == seq![66u8] {
        Some(Side::Black)
    } else {
        None
    }
}

/// A tile token: exactly two digits from `0` to `6`.
pub open spec fn tile_of_token(t: Seq<u8>) -> Option<Tile> {
    if t.len() == 2 && 48 <= t[0] <= 54 && 48 <= t[1] <= 54 {
        Some(Tile { a: (t[0] - 48) as u8, b: (t[1] - 48) as u8 })
    } else {
        None
    }
}

pub open spec fn tiles_of_tokens(toks: Seq<Seq<u8>>) -> Option<Seq<Tile>>
    decreases toks.len(),
{
    if toks.len() == 0 {
        Some(Seq::empty())
    } else {
        match (tiles_of_tokens(toks.drop_last()), tile_of_token(toks.last())) {
            (Some(a), Some(t)) => Some(a.push(t)),
            _ => None,
        }
    }
}

/// A tile list: empty, or comma-separated tile tokens.
pub open spec fn tiles_of_text(p: Seq<u8>) -> Option<Seq<Tile>> {
    if p.len() == 0 {
        Some(Seq::empty())
    } else {
        tiles_of_tokens(split_spec(p, COMMA))
    }
}

/// Laid halves: comma-separated numbers up to 6, empty tokens skipped.
pub open spec fn halves_of_tokens(toks: Seq<Seq<u8>>) -> Option<Seq<u8>>
    decreases toks.len(),
{
    if toks.len() == 0 {
        Some(Seq::empty())
    } else {
        match halves_of_tokens(toks.drop_last()) {
            None => None,
            Some(a) => if toks.last().len() == 0 {
                Some(a)
            } else {
                match parse_u8_spec(toks.last()) {
                    Some(v) => if v <= 6 {
                        Some(a.push(v))
                    } else {
                        None
                    },
                    None => None,
                }
            },
        }
    }
}

pub open spec fn halves_of_text(p: Seq<u8>) -> Option<Seq<u8>> {
    halves_of_tokens(split_spec(p, COMMA))
}

/// What a snapshot text reads as: six `|`-separated fields, the first
/// `v1`, then the side to move, the two hands, the yard and the halves.
pub open spec fn save_of_text(blob: Seq<u8>) -> Option<(Side, Seq<Tile>, Seq<Tile>, Seq<Tile>, Seq<u8>)> {
    let parts = split_spec(blob, BAR);
    if parts.len() != 6 || parts[0] != header() {
        None
    } else {
        match (
            side_of_text(parts[1]),
            tiles_of_text(parts[2]),
            tiles_of_text(parts[3]),
            tiles_of_text(parts[4]),
            halves_of_text(parts[5]),
        ) {
            (Some(t), Some(w), Some(b), Some(y), Some(l)) => Some((t, w, b, y, l)),
            _ => None,
        }
    }
}

/// Every pip value of the tiles is at most six.
pub open spec fn small_tiles(ts: Seq<Tile>) -> bool {
    forall|k: int| 0 <= k < ts.len() ==> (#[trigger] ts[k]).a <= 6 && ts[k].b <= 6
}

fn push_tiles(out: &mut Vec<u8>, ts: &[Tile])
    ensures
        final(out)@ == old(out)@ + tiles_text(ts@),
{
    let ghost o = out@;
    let mut i: usize = 0;
    while i < ts.len()
        invariant
            0 <= i <= ts@.len(),
            out@ == o + tiles_text(ts@.take(i as int)),
        decreases ts@.len() - i,
    {
        let ghost before = out@;
        let ghost prev = ts@.take(i as int).map_values(|t: Tile| tile_text(t));
        let ghost next = ts@.take(i + 1).map_values(|t: Tile| tile_text(t));
        assert(next =~= prev.push(tile_text(ts@[i as int])));
        assert(next.drop_last() =~= prev);
        if i > 0 {
            out.push(COMMA);
        }
        push_decimal(out, ts[i].a);
        push_decimal(out, ts[i].b);
        proof {
            if i == 0 {
                assert(prev.len() == 0);
                assert(out@ =~= o + tiles_text(ts@.take(i + 1)));
            } else {
                assert(out@ =~= o + tiles_text(ts@.take(i + 1)));
            }
        }
        i += 1;
    }
    assert(ts@.take(ts@.len() as int) =~= ts@);
}

fn push_halves(out: &mut Vec<u8>, line: &[u8])
    ensures
        final(out)@ == old(out)@ + halves_text(line@),
{
    let ghost o = out@;
    let mut i: usize = 0;
    while i < line.len()
        invariant
            0 <= i <= line@.len(),
            out@ == o + halves_text(line@.take(i as int)),
        decreases line@.len() - i,
    {
        let ghost prev = line@.take(i as int).map_values(|v: u8| decimal_spec(v as nat));
        let ghost next = line@.take(i + 1).map_values(|v: u8| decimal_spec(v as nat));
        assert(next =~= prev.push(decimal_spec(line@[i as int] as nat)));
        assert(next.drop_last() =~= prev);
        if i > 0 {
            out.push(COMMA);
        }
        push_decimal(out, line[i]);
        proof {
            if i == 0 {
                assert(prev.len() == 0);
            }
            assert(out@ =~= o + halves_text(line@.take(i + 1)));
        }
        i += 1;
    }
    assert(line@.take(line@.len() as int) =~= line@);
}

/// The snapshot of `g`.
pub fn encode(g: &Dominoes) -> (r: Vec<u8>)
    ensures
        r@ == save_text(
            g.turn_spec(),
            g.hand_of(Side::White),
            g.hand_of(Side::Black),
            g.boneyard_spec(),
            g.line_spec(),
        ),
{
    let white = g.hand(Side::White);
    let black = g.hand(Side::Black);
    let yard = g.boneyard_tiles();
    let mut out: Vec<u8> = Vec::new();
    out.push(118);
    out.push(49);
    out.push(BAR);
    match g.turn() {
        Side::White => out.push(87),
        Side::Black => out.push(66),
    }
    let ghost p2 = seq![header(), side_text(g.turn_spec())];
    assert(out@ =~= join_spec(p2, BAR)) by {
        assert(p2.drop_last() =~= seq![header()]);
        assert(join_spec(seq![header()], BAR) == header());
        assert(join_spec(p2, BAR) == header().push(BAR) + side_text(g.turn_spec()));
        match g.turn_spec() {
            Side::White => {},
            Side::Black => {},
        }
    }
    out.push(BAR);
    push_tiles(&mut out, white);
    let ghost p3 = p2.push(tiles_text(g.hand_of(Side::White)));
    assert(out@ =~= join_spec(p3, BAR)) by {
        assert(p3.drop_last() =~= p2);
    }
    out.push(BAR);
    push_tiles(&mut out, black);
    let ghost p4 = p3.push(tiles_text(g.hand_of(Side::Black)));
    assert(out@ =~= join_spec(p4, BAR)) by {
        assert(p4.drop_last() =~= p3);
    }
    out.push(BAR);
    push_tiles(&mut out, yard.as_slice());
    let ghost p5 = p4.push(tiles_text(g.boneyard_spec()));
    assert(out@ =~= join_spec(p5, BAR)) by {
        assert(p5.drop_last() =~= p4);
    }
    out.push(BAR);
    push_halves(&mut out, g.line());
    let ghost p6 = p5.push(halves_text(g.line_spec()));
    assert(out@ =~= join_spec(p6, BAR)) by {
        assert(p6.drop_last() =~= p5);
    }
    assert(p6 =~= seq![
        header(),
        side_text(g.turn_spec()),
        tiles_text(g.hand_of(Side::White)),
        tiles_text(g.hand_of(Side::Black)),
        tiles_text(g.boneyard_spec()),
        halves_text(g.line_spec()),
    ]);
    out
}

proof fn lemma_tiles_prefix_none(toks: Seq<Seq<u8>>, k: int)
    requires
        0 <= k <= toks.len(),
        tiles_of_tokens(toks.take(k)) is None,
    ensures
        tiles_of_tokens(toks) is None,
    decreases toks.len() - k,
{
    if k < toks.len() {
        assert(toks.take(k + 1).drop_last() =~= toks.take(k));
        lemma_tiles_prefix_none(toks, k + 1);
    } else {
        assert(toks.take(k) =~= toks);
    }
}

proof fn lemma_halves_prefix_none(toks: Seq<Seq<u8>>, k: int)
    requires
        0 <= k <= toks.len(),
        halves_of_tokens(toks.take(k)) is None,
    ensures
        halves_of_tokens(toks) is None,
    decreases toks.len() - k,
{
    if k < toks.len() {
        assert(toks.take(k + 1).drop_last() =~= toks.take(k));
        lemma_halves_prefix_none(toks, k + 1);
    } else {
        assert(toks.take(k) =~= toks);
    }
}

fn tiles_from(p: &[u8]) -> (r: Option<Vec<Tile>>)
    ensures
        match r {
            Some(v) => tiles_of_text(p@) == Some(v@),
            None => tiles_of_text(p@) is None,
        },
{
    if p.len() == 0 {
        return Some(Vec::new());
    }
    let toks = split_bytes(p, COMMA);
    let ghost tv = split_spec(p@, COMMA);
    let mut out: Vec<Tile> = Vec::new();
    let mut k: usize = 0;
    while k < toks.len()
        invariant
            0 <= k <= toks@.len(),
            toks@.len() == tv.len(),
            forall|j: int| 0 <= j < toks@.len() ==> (#[trigger] toks@[j])@ == tv[j],
            tiles_of_tokens(tv.take(k as int)) == Some(out@),
            p@.len() > 0,
            tv == split_spec(p@, COMMA),
        decreases toks@.len() - k,
    {
        let t = &toks[k];
        assert(t@ == tv[k as int]);
        assert(tv.take(k + 1).drop_last() =~= tv.take(k as int));
        assert(tv.take(k + 1).last() == tv[k as int]);
        if t.len() != 2 || t[0] < 48 || t[0] > 54 || t[1] < 48 || t[1] > 54 {
            proof {
                assert(tile_of_token(tv[k as int]) is None);
                assert(tiles_of_tokens(tv.take(k + 1)) is None);
                lemma_tiles_prefix_none(tv, k + 1);
                assert(tiles_of_text(p@) == tiles_of_tokens(tv));
            }
            return None;
        }
        out.push(Tile { a: t[0] - 48, b: t[1] - 48 });
        k += 1;
    }
    assert(tv.take(toks@.len() as int) =~= tv);
    Some(out)
}

fn halves_from(p: &[u8]) -> (r: Option<Vec<u8>>)
    ensures
        match r {
            Some(v) => halves_of_text(p@) == Some(v@),
            None => halves_of_text(p@) is None,
        },
{
    let toks = split_bytes(p, COMMA);
    let ghost tv = split_spec(p@, COMMA);
    let mut out: Vec<u8> = Vec::new();
    let mut k: usize = 0;
    while k < toks.len()
        invariant
            0 <= k <= toks@.len(),
            toks@.len() == tv.len(),
            forall|j: int| 0 <= j < toks@.len() ==> (#[trigger] toks@[j])@ == tv[j],
            halves_of_tokens(tv.take(k as int)) == Some(out@),
            tv == split_spec(p@, COMMA),
        decreases toks@.len() - k,
    {
        let t = &toks[k];
        assert(t@ == tv[k as int]);
        assert(tv.take(k + 1).drop_last() =~= tv.take(k as int));
        assert(tv.take(k + 1).last() == tv[k as int]);
        if t.len() > 0 {
            match parse_u8(t.as_slice()) {
                Some(v) => {
                    if v > 6 {
                        proof {
                            assert(halves_of_tokens(tv.take(k + 1)) is None);
                            lemma_halves_prefix_none(tv, k + 1);
                        }
                        return None;
                    }
                    out.push(v);
                },
                None => {
                    proof {
                        assert(halves_of_tokens(tv.take(k + 1)) is None);
                        lemma_halves_prefix_none(tv, k + 1);
                    }
                    return None;
                },
            }
        }
        k += 1;
    }
    assert(tv.take(toks@.len() as int) =~= tv);
    Some(out)
}

/// Reads a snapshot text; `None` when it is not one.
pub fn decode(blob: &[u8]) -> (r: Option<Save>)
    ensures
        match r {
            Some(s) => save_of_text(blob@) == Some(save_view(s)),
            None => save_of_text(blob@) is None,
        },
{
    let parts = split_bytes(blob, BAR);
    let ghost pv = split_spec(blob@, BAR);
    if parts.len() != 6 {
        return None;
    }
    assert(parts@[0]@ == pv[0]);
    if parts[0].len() != 2 || parts[0][0] != 118 || parts[0][1] != 49 {
        proof {
            if pv[0] == header() {
                assert(pv[0][0] == 118 && pv[0][1] == 49);
            }
        }
        return None;
    }
    assert(pv[0] =~= header());
    assert(parts@[1]@ == pv[1]);
    let turn = if parts[1].len() == 1 && parts[1][0] == 87 {
        assert(pv[1] =~= seq![87u8]);
        Side::White
    } else if parts[1].len() == 1 && parts[1][0] == 66 {
        assert(pv[1] =~= seq![66u8]);
        Side::Black
    } else {
        proof {
            if pv[1] == seq![87u8] || pv[1] == seq![66u8] {
                assert(pv[1].len() == 1);
                assert(pv[1][0] == 87 || pv[1][0] == 66);
            }
        }
        return None;
    };
    assert(parts@[2]@ == pv[2]);
    assert(parts@[3]@ == pv[3]);
    assert(parts@[4]@ == pv[4]);
    assert(parts@[5]@ == pv[5]);
    let white = match tiles_from(parts[2].as_slice()) {
        Some(v) => v,
        None => return None,
    };
    let black = match tiles_from(parts[3].as_slice()) {
        Some(v) => v,
        None => return None,
    };
    let boneyard = match tiles_from(parts[4].as_slice()) {
        Some(v) => v,
        None => return None,
    };
    let line = match halves_from(parts[5].as_slice()) {
        Some(v) => v,
        None => return None,
    };
    Some(Save { turn, white, black, boneyard, line })
}

/// Adds up the pips of `ts`, or `None` past `cap`.
fn pips_upto_cap(ts: &Vec<Tile>, cap: u32) -> (r: Option<u32>)
    requires
        cap <= 65535,
    ensures
        match r {
            Some(v) => v == pips_of(ts@) && v <= cap,
            None => pips_of(ts@) > cap,
        },
{
    let mut sum: u32 = 0;
    let mut i: usize = 0;
    while i < ts.len()
        invariant
            0 <= i <= ts@.len(),
            sum == pips_of(ts@.take(i as int)),
            sum <= cap,
            cap <= 65535,
        decreases ts@.len() - i,
    {
        assert(ts@.take(i + 1).drop_last() =~= ts@.take(i as int));
        assert(ts@.take(i + 1).last() == ts@[i as int]);
        let next = sum + ts[i].a as u32 + ts[i].b as u32;
        if next > cap {
            proof {
                lemma_pips_prefix_le(ts@, i + 1);
            }
            return None;
        }
        sum = next;
        i += 1;
    }
    assert(ts@.take(ts@.len() as int) =~= ts@);
    Some(sum)
}

proof fn lemma_pips_prefix_le(ts: Seq<Tile>, k: int)
    requires
        0 <= k <= ts.len(),
    ensures
        pips_of(ts.take(k)) <= pips_of(ts),
    decreases ts.len() - k,
{
    if k < ts.len() {
        lemma_pips_prefix_le(ts, k + 1);
        assert(ts.take(k + 1).drop_last() =~= ts.take(k));
    } else {
        assert(ts.take(k) =~= ts);
    }
}

proof fn lemma_small_tiles_ok(ts: Seq<Tile>)
    requires
        small_tiles(ts),
    ensures
        tiles_ok(ts),
{
}

proof fn lemma_tokens_small(toks: Seq<Seq<u8>>)
    ensures
        tiles_of_tokens(toks) matches Some(ts) ==> small_tiles(ts),
    decreases toks.len(),
{
    if toks.len() > 0 {
        lemma_tokens_small(toks.drop_last());
    }
}

/// The tiles a snapshot text lists all have pip values up to six.
proof fn lemma_text_small(p: Seq<u8>)
    ensures
        tiles_of_text(p) matches Some(ts) ==> small_tiles(ts),
{
    if p.len() > 0 {
        lemma_tokens_small(split_spec(p, COMMA));
    }
}

impl Dominoes {
    /// Restores the game a snapshot text describes. Refused, leaving the
    /// game as it was, when the text is not a snapshot or its tiles carry
    /// more pips than a hand count can hold.
    pub fn restore_snapshot(&mut self, blob: &[u8]) -> (ok: bool)
        ensures
            ok == (save_of_text(blob@) matches Some(v) && pips_of(v.1) + pips_of(v.2) + pips_of(v.3)
                <= u16::MAX),
            !ok ==> *final(self) == *old(self),
            ok ==> ({
                let v = save_of_text(blob@)->0;
                &&& final(self).wf()
                &&& final(self).turn_spec() == v.0
                &&& final(self).hand_of(Side::White) == v.1
                &&& final(self).hand_of(Side::Black) == v.2
                &&& final(self).boneyard_spec() == v.3
                &&& final(self).line_spec() == v.4
                &&& final(self).status_spec() is Ongoing
                &&& final(self).passes_spec() == 0
            }),
    {
        let save = match decode(blob) {
            Some(s) => s,
            None => return false,
        };
        proof {
            lemma_split_nonempty(blob@, BAR);
            let pv = split_spec(blob@, BAR);
            lemma_text_small(pv[2]);
            lemma_text_small(pv[3]);
            lemma_text_small(pv[4]);
            lemma_pips_nonneg_all(save.white@);
            lemma_pips_nonneg_all(save.black@);
            lemma_pips_nonneg_all(save.boneyard@);
        }
        let w = match pips_upto_cap(&save.white, 65535) {
            Some(v) => v,
            None => return false,
        };
        let b = match pips_upto_cap(&save.black, 65535 - w) {
            Some(v) => v,
            None => return false,
        };
        let y = match pips_upto_cap(&save.boneyard, 65535 - w - b) {
            Some(v) => v,
            None => return false,
        };
        let Save { turn, white, black, boneyard, line } = save;
        self.restore_state([white, black], boneyard, line, turn);
        true
    }
}

proof fn lemma_pips_nonneg_all(s: Seq<Tile>)
    ensures
        pips_of(s) >= 0,
    decreases s.len(),
{
    if s.len() > 0 {
        lemma_pips_nonneg_all(s.drop_last());
    }
}

proof fn lemma_tiles_text_free(ts: Seq<Tile>, c: u8)
    requires
        c == COMMA || c == BAR,
    ensures
        free_of(ts.map_values(|t: Tile| tile_text(t)), c),
        free_of(ts.map_values(|t: Tile| tile_text(t)), BAR),
{
    let m = ts.map_values(|t: Tile| tile_text(t));
    assert forall|k: int| 0 <= k < m.len() implies !(#[trigger] m[k]).contains(c) && !m[k].contains(BAR) by {
        let t = ts[k];
        lemma_parse_decimal(t.a);
        lemma_parse_decimal(t.b);
        let x = decimal_spec(t.a as nat);
        let y = decimal_spec(t.b as nat);
        assert(m[k] == x + y);
        if (x + y).contains(c) || (x + y).contains(BAR) {
            let i = choose|i: int| 0 <= i < (x + y).len() && ((x + y)[i] == c || (x + y)[i] == BAR);
            if i < x.len() {
                assert(is_digit(x[i]));
            } else {
                assert(is_digit(y[i - x.len()]));
            }
        }
    }
}

proof fn lemma_halves_text_free(line: Seq<u8>, c: u8)
    requires
        c == COMMA || c == BAR,
    ensures
        free_of(line.map_values(|v: u8| decimal_spec(v as nat)), c),
{
    let m = line.map_values(|v: u8| decimal_spec(v as nat));
    assert forall|k: int| 0 <= k < m.len() implies !(#[trigger] m[k]).contains(c) by {
        lemma_parse_decimal(line[k]);
        if m[k].contains(c) {
            let i = choose|i: int| 0 <= i < m[k].len() && m[k][i] == c;
            assert(is_digit(m[k][i]));
        }
    }
}

proof fn lemma_tiles_tokens(ts: Seq<Tile>)
    requires
        small_tiles(ts),
    ensures
        tiles_of_tokens(ts.map_values(|t: Tile| tile_text(t))) == Some(ts),
    decreases ts.len(),
{
    let m = ts.map_values(|t: Tile| tile_text(t));
    if ts.len() == 0 {
        assert(ts =~= Seq::<Tile>::empty());
    } else {
        let init = ts.drop_last();
        assert(small_tiles(init)) by {
            assert forall|k: int| 0 <= k < init.len() implies (#[trigger] init[k]).a <= 6 && init[k].b <= 6 by {
                assert(init[k] == ts[k]);
            }
        }
        lemma_tiles_tokens(init);
        assert(m.drop_last() =~= init.map_values(|t: Tile| tile_text(t)));
        let t = ts.last();
        assert(t == ts[ts.len() - 1]);
        assert(m.last() == tile_text(t));
        reveal_with_fuel(decimal_spec, 2);
        assert(decimal_spec(t.a as nat) =~= seq![(48 + t.a) as u8]);
        assert(decimal_spec(t.b as nat) =~= seq![(48 + t.b) as u8]);
        assert(tile_text(t) =~= seq![(48 + t.a) as u8, (48 + t.b) as u8]);
        assert(tile_of_token(tile_text(t)) == Some(t));
        assert(init.push(t) =~= ts);
    }
}

proof fn lemma_halves_tokens(line: Seq<u8>)
    requires
        forall|k: int| 0 <= k < line.len() ==> #[trigger] line[k] <= 6,
    ensures
        halves_of_tokens(line.map_values(|v: u8| decimal_spec(v as nat))) == Some(line),
    decreases line.len(),
{
    let m = line.map_values(|v: u8| decimal_spec(v as nat));
    if line.len() == 0 {
        assert(line =~= Seq::<u8>::empty());
    } else {
        let init = line.drop_last();
        assert forall|k: int| 0 <= k < init.len() implies #[trigger] init[k] <= 6 by {
            assert(init[k] == line[k]);
        }
        lemma_halves_tokens(init);
        assert(m.drop_last() =~= init.map_values(|v: u8| decimal_spec(v as nat)));
        let v = line.last();
        assert(v == line[line.len() - 1]);
        lemma_parse_decimal(v);
        assert(m.last() == decimal_spec(v as nat));
        assert(init.push(v) =~= line);
    }
}

proof fn lemma_tiles_round_trip(ts: Seq<Tile>)
    requires
        small_tiles(ts),
    ensures
        tiles_of_text(tiles_text(ts)) == Some(ts),
{
    let m = ts.map_values(|t: Tile| tile_text(t));
    if ts.len() == 0 {
        assert(m.len() == 0);
        assert(ts =~= Seq::<Tile>::empty());
    } else {
        lemma_tiles_text_free(ts, COMMA);
        lemma_split_join(m, COMMA);
        lemma_tiles_tokens(ts);
        lemma_parse_decimal(ts[0].a);
        assert(tiles_text(ts).len() > 0) by {
            lemma_join_len(m, COMMA);
        }
    }
}

proof fn lemma_join_len(parts: Seq<Seq<u8>>, sep: u8)
    requires
        parts.len() >= 1,
        parts[0].len() >= 1,
    ensures
        join_spec(parts, sep).len() >= 1,
    decreases parts.len(),
{
    if parts.len() > 1 {
        lemma_join_len(parts.drop_last(), sep);
    }
}

proof fn lemma_halves_round_trip(line: Seq<u8>)
    requires
        forall|k: int| 0 <= k < line.len() ==> #[trigger] line[k] <= 6,
    ensures
        halves_of_text(halves_text(line)) == Some(line),
{
    let m = line.map_values(|v: u8| decimal_spec(v as nat));
    if line.len() == 0 {
        assert(m.len() == 0);
        assert(halves_text(line) == Seq::<u8>::empty());
        let toks = split_spec(Seq::<u8>::empty(), COMMA);
        assert(toks =~= seq![Seq::<u8>::empty()]);
        assert(toks.drop_last() =~= Seq::<Seq<u8>>::empty());
        assert(toks.last() == Seq::<u8>::empty());
        assert(halves_of_tokens(toks.drop_last()) == Some(Seq::<u8>::empty()));
        assert(halves_of_tokens(toks) == Some(Seq::<u8>::empty()));
        assert(line =~= Seq::<u8>::empty());
    } else {
        lemma_halves_text_free(line, COMMA);
        lemma_split_join(m, COMMA);
        lemma_halves_tokens(line);
    }
}

/// Reading back the snapshot text of a game gives its side to move, both
/// hands, its yard and its chain, whenever no pip value exceeds six.
pub proof fn law_snapshot_round_trip(
    turn: Side,
    white: Seq<Tile>,
    black: Seq<Tile>,
    yard: Seq<Tile>,
    line: Seq<u8>,
)
    requires
        small_tiles(white),
        small_tiles(black),
        small_tiles(yard),
        forall|k: int| 0 <= k < line.len() ==> #[trigger] line[k] <= 6,
    ensures
        save_of_text(save_text(turn, white, black, yard, line)) == Some((turn, white, black, yard, line)),
{
    let parts = seq![
        header(),
        side_text(turn),
        tiles_text(white),
        tiles_text(black),
        tiles_text(yard),
        halves_text(line),
    ];
    lemma_tiles_text_free(white, BAR);
    lemma_tiles_text_free(black, BAR);
    lemma_tiles_text_free(yard, BAR);
    lemma_join_free(white.map_values(|t: Tile| tile_text(t)), COMMA, BAR);
    lemma_join_free(black.map_values(|t: Tile| tile_text(t)), COMMA, BAR);
    lemma_join_free(yard.map_values(|t: Tile| tile_text(t)), COMMA, BAR);
    lemma_halves_text_free(line, BAR);
    lemma_join_free(line.map_values(|v: u8| decimal_spec(v as nat)), COMMA, BAR);
    assert(free_of(parts, BAR)) by {
        assert forall|k: int| 0 <= k < parts.len() implies !(#[trigger] parts[k]).contains(BAR) by {
            if k == 0 {
                assert(parts[0] =~= seq![118u8, 49u8]);
                if parts[0].contains(BAR) {
                    let i = choose|i: int| 0 <= i < 2 && parts[0][i] == BAR;
                }
            } else if k == 1 {
                if parts[1].contains(BAR) {
                    let i = choose|i: int| 0 <= i < parts[1].len() && parts[1][i] == BAR;
                    match turn {
                        Side::White => {},
                        Side::Black => {},
                    }
                }
            }
        }
    }
    lemma_split_join(parts, BAR);
    lemma_tiles_round_trip(white);
    lemma_tiles_round_trip(black);
    lemma_tiles_round_trip(yard);
    lemma_halves_round_trip(line);
    match turn {
        Side::White => {
            assert(side_text(turn) =~= seq![87u8]);
        },
        Side::Black => {
            assert(side_text(turn) =~= seq![66u8]);
            assert(seq![66u8] != seq![87u8]) by {
                assert(seq![66u8][0] != seq![87u8][0]);
            }
        },
    }
}

} // verus!

//! Pure Battleship rules: classic 10x10 fleets, hidden placement, one shot
//! per turn, hit/miss/sunk resolution and fleet-annihilation victory.

use crate::random::{fresh_rng, random_below_in};
use rand::rngs::StdRng;
use vstd::prelude::*;

verus! {

pub const GRID: usize = 10;

pub const CELLS: usize = 100;

#[derive(Clone, Copy, PartialEq, Eq, Debug, Structural)]
pub enum Side {
    White,
    Black,
}

pub open spec fn opposite_of(s: Side) -> Side {
    match s {
        Side::White => Side::Black,
        Side::Black => Side::White,
    }
}

impl Side {
    pub fn opposite(self) -> (r: Self)
        ensures
            r == opposite_of(self),
    {
        match self {
            Side::White => Side::Black,
            Side::Black => Side::White,
        }
    }

    /// Board glyph: a hollow circle for White, a filled one for Black.
    pub fn symbol(self) -> (r: char)
        ensures
            r == match self {
                Side::White => '\u{25cb}',
                Side::Black => '\u{25cf}',
            },
    {
        match self {
            Side::White => '\u{25cb}',
            Side::Black => '\u{25cf}',
        }
    }
}

#[derive(Clone, Copy, PartialEq, Eq, Debug, Structural)]
pub enum Status {
    Ongoing,
    Won(Side),
}

impl Status {
    pub fn is_ongoing(self) -> (r: bool)
        ensures
            r == (self is Ongoing),
    {
        match self {
            Status::Ongoing => true,
            Status::Won(_) => false,
        }
    }
}

#[derive(Clone, Copy, PartialEq, Eq, Debug, Structural)]
pub enum ShipKind {
    Carrier,
    Battleship,
    Cruiser,
    Submarine,
    Destroyer,
}

/// The classic fleet, in placement order.
pub const FLEET: [ShipKind; 5] = [
    ShipKind::Carrier,
    ShipKind::Battleship,
    ShipKind::Cruiser,
    ShipKind::Submarine,
    ShipKind::Destroyer,
];

pub open spec fn kind_len(k: ShipKind) -> nat {
    match k {
        ShipKind::Carrier => 5,
        ShipKind::Battleship => 4,
        ShipKind::Cruiser => 3,
        ShipKind::Submarine => 3,
        ShipKind::Destroyer => 2,
    }
}

impl ShipKind {
    /// Hull length in cells.
    pub fn len(self) -> (r: usize)
        ensures
            r == kind_len(self),
    {
        match self {
            ShipKind::Carrier => 5,
            ShipKind::Battleship => 4,
            ShipKind::Cruiser => 3,
            ShipKind::Submarine => 3,
            ShipKind::Destroyer => 2,
        }
    }

    /// Lowercase name.
    pub fn name(self) -> (r: &'static str)
        ensures
            r@ == match self {
                ShipKind::Carrier => "carrier"@,
                ShipKind::Battleship => "battleship"@,
                ShipKind::Cruiser => "cruiser"@,
                ShipKind::Submarine => "submarine"@,
                ShipKind::Destroyer => "destroyer"@,
            },
    {
        match self {
            ShipKind::Carrier => "carrier",
            ShipKind::Battleship => "battleship",
            ShipKind::Cruiser => "cruiser",
            ShipKind::Submarine => "submarine",
            ShipKind::Destroyer => "destroyer",
        }
    }
}

/// What a side can know about the opposing waters.
#[derive(Clone, Copy, PartialEq, Eq, Debug, Structural)]
pub enum CellView {
    Unknown,
    Miss,
    Hit,
    Sunk,
}

#[derive(Clone, Copy, PartialEq, Eq, Debug, Structural)]
pub enum ShotOutcome {
    Miss,
    Hit,
    Sunk(ShipKind),
}

/// One ship: its kind, the cells of its hull and whether it went down.
pub struct Ship {
    pub kind: ShipKind,
    pub cells: Vec<usize>,
    pub sunk: bool,
}

/// A ship as the rules see it.
pub struct ShipV {
    pub kind: ShipKind,
    pub cells: Seq<usize>,
    pub sunk: bool,
}

pub open spec fn ship_v(s: Ship) -> ShipV {
    ShipV { kind: s.kind, cells: s.cells@, sunk: s.sunk }
}

/// Index of the first ship whose hull covers `cell`, from `i` on.
pub open spec fn ship_at_from(ships: Seq<ShipV>, cell: usize, i: int) -> Option<int>
    decreases ships.len() - i,
{
    if i < 0 || i >= ships.len() {
        None
    } else if ships[i].cells.contains(cell) {
        Some(i)
    } else {
        ship_at_from(ships, cell, i + 1)
    }
}

pub open spec fn ship_at(ships: Seq<ShipV>, cell: usize) -> Option<int> {
    ship_at_from(ships, cell, 0)
}

/// Every hull cell of `s` has been fired at.
pub open spec fn all_hit(s: ShipV, incoming: Seq<bool>) -> bool {
    forall|k: int| 0 <= k < s.cells.len() ==> #[trigger] incoming[s.cells[k] as int]
}

/// Every ship of the fleet is down.
pub open spec fn all_sunk(ships: Seq<ShipV>) -> bool {
    forall|k: int| 0 <= k < ships.len() ==> (#[trigger] ships[k]).sunk
}

/// Hull cells are on the board.
pub open spec fn hulls_ok(ships: Seq<ShipV>) -> bool {
    forall|k: int, j: int|
        0 <= k < ships.len() && 0 <= j < ships[k].cells.len() ==> #[trigger] ships[k].cells[j] < 100
}

/// What `side` sees at `cell` of the opposing waters.
pub open spec fn view_at(ships: Seq<ShipV>, incoming: Seq<bool>, cell: usize) -> CellView {
    if !incoming[cell as int] {
        CellView::Unknown
    } else {
        match ship_at(ships, cell) {
            Some(si) => if ships[si].sunk {
                CellView::Sunk
            } else {
                CellView::Hit
            },
            None => CellView::Miss,
        }
    }
}

struct Fleet {
    ships: Vec<Ship>,
    /// Cells fired at THIS fleet.
    incoming: [bool; 100],
}

/// Sum of `f` over `lo..hi`.
pub open spec fn total(f: spec_fn(int) -> int, lo: int, hi: int) -> int
    decreases hi - lo,
{
    if hi <= lo {
        0
    } else {
        total(f, lo, hi - 1) + f(hi - 1)
    }
}

/// 1 on the used cells, 0 elsewhere.
pub open spec fn used_ind(used: Seq<bool>) -> spec_fn(int) -> int {
    |c: int| if used[c] {
        1int
    } else {
        0int
    }
}

/// 1 on the cells `s` lists, 0 elsewhere.
pub open spec fn listed_ind(s: Seq<usize>) -> spec_fn(int) -> int {
    |c: int| if c >= 0 && s.contains(c as usize) {
        1int
    } else {
        0int
    }
}

/// Cells the first `i` ships of the classic fleet cover.
pub open spec fn fleet_cells(i: int) -> int {
    if i <= 0 {
        0
    } else if i == 1 {
        5
    } else if i == 2 {
        9
    } else if i == 3 {
        12
    } else if i == 4 {
        15
    } else {
        17
    }
}

proof fn lemma_total_le(f: spec_fn(int) -> int, g: spec_fn(int) -> int, h: spec_fn(int) -> int, lo: int, hi: int)
    requires
        forall|c: int| lo <= c < hi ==> #[trigger] f(c) <= g(c) + h(c),
    ensures
        total(f, lo, hi) <= total(g, lo, hi) + total(h, lo, hi),
    decreases hi - lo,
{
    if hi > lo {
        lemma_total_le(f, g, h, lo, hi - 1);
    }
}

proof fn lemma_total_split(f: spec_fn(int) -> int, lo: int, mid: int, hi: int)
    requires
        lo <= mid <= hi,
    ensures
        total(f, lo, hi) == total(f, lo, mid) + total(f, mid, hi),
    decreases hi - mid,
{
    if hi > mid {
        lemma_total_split(f, lo, mid, hi - 1);
    }
}

proof fn lemma_total_bits(f: spec_fn(int) -> int, lo: int, hi: int)
    requires
        lo <= hi,
        forall|c: int| lo <= c < hi ==> #[trigger] f(c) == 0 || f(c) == 1,
    ensures
        total(f, lo, hi) >= 0,
        total(f, lo, hi) == 0 ==> forall|c: int| lo <= c < hi ==> #[trigger] f(c) == 0,
    decreases hi - lo,
{
    if hi > lo {
        lemma_total_bits(f, lo, hi - 1);
    }
}

proof fn lemma_listed_count(s: Seq<usize>, lo: int, hi: int)
    requires
        0 <= lo <= hi <= 100,
    ensures
        total(listed_ind(s), lo, hi) <= s.len(),
    decreases s.len(),
{
    if s.len() == 0 {
        assert forall|c: int| lo <= c < hi implies #[trigger] listed_ind(s)(c) <= 0int + 0int by {}
        lemma_total_le(listed_ind(s), |c: int| 0int, |c: int| 0int, lo, hi);
        lemma_total_zero(lo, hi);
    } else {
        let t = s.drop_last();
        let x = s.last();
        let one = |c: int| if c == x as int {
            1int
        } else {
            0int
        };
        assert forall|c: int| lo <= c < hi implies #[trigger] listed_ind(s)(c) <= listed_ind(t)(c) + one(c) by {
            if c >= 0 && s.contains(c as usize) && c != x as int {
                let k = choose|k: int| 0 <= k < s.len() && s[k] == c as usize;
                assert(k != s.len() - 1);
                assert(k < t.len());
                assert(t[k] == c as usize);
            }
        }
        lemma_total_le(listed_ind(s), listed_ind(t), one, lo, hi);
        lemma_listed_count(t, lo, hi);
        lemma_total_single(x as int, lo, hi);
    }
}

proof fn lemma_total_zero(lo: int, hi: int)
    ensures
        total(|c: int| 0int, lo, hi) == 0,
    decreases hi - lo,
{
    if hi > lo {
        lemma_total_zero(lo, hi - 1);
    }
}

proof fn lemma_total_single(x: int, lo: int, hi: int)
    ensures
        total(
            |c: int| if c == x {
                1int
            } else {
                0int
            },
            lo,
            hi,
        ) <= 1,
        total(
            |c: int| if c == x {
                1int
            } else {
                0int
            },
            lo,
            hi,
        ) >= 0,
        hi <= x ==> total(
            |c: int| if c == x {
                1int
            } else {
                0int
            },
            lo,
            hi,
        ) == 0,
    decreases hi - lo,
{
    if hi > lo {
        lemma_total_single(x, lo, hi - 1);
    }
}

/// Rows each holding two used cells or more add up to twice their number.
proof fn lemma_rows_full(used: Seq<bool>, q: int)
    requires
        0 <= q <= 10,
        forall|r: int| 0 <= r < q ==> #[trigger] total(used_ind(used), r * 10, r * 10 + 10) >= 2,
    ensures
        total(used_ind(used), 0, q * 10) >= 2 * q,
    decreases q,
{
    if q > 0 {
        lemma_rows_full(used, q - 1);
        lemma_total_split(used_ind(used), 0, (q - 1) * 10, q * 10);
        assert(total(used_ind(used), (q - 1) * 10, (q - 1) * 10 + 10) >= 2);
    }
}

/// While at most 15 cells are used, some hull of up to five cells fits in
/// a free half row.
proof fn lemma_free_hull(used: Seq<bool>, len: int)
    requires
        used.len() == 100,
        total(used_ind(used), 0, 100) <= 15,
        2 <= len <= 5,
    ensures
        exists|h: bool, row: int, col: int| #[trigger] hull_free_spec(used, h, row, col, len),
{
    let f = used_ind(used);
    if forall|r: int| 0 <= r < 10 ==> #[trigger] total(f, r * 10, r * 10 + 10) >= 2 {
        lemma_rows_full(used, 10);
        assert(false);
    }
    let r = choose|r: int| 0 <= r < 10 && !(#[trigger] total(f, r * 10, r * 10 + 10) >= 2);
    lemma_total_split(f, r * 10, r * 10 + 5, r * 10 + 10);
    lemma_total_bits(f, r * 10, r * 10 + 5);
    lemma_total_bits(f, r * 10 + 5, r * 10 + 10);
    let start: int = if total(f, r * 10, r * 10 + 5) == 0 {
        0
    } else {
        5
    };
    assert(total(f, r * 10 + start, r * 10 + start + 5) == 0);
    assert forall|t: int| 0 <= t < len implies !#[trigger] used[hull_spec(true, r, start, len)[t] as int] by {
        assert(hull_spec(true, r, start, len)[t] == (r * 10 + start + t) as usize);
        assert(f(r * 10 + start + t) == 0);
    }
    assert(hull_free_spec(used, true, r, start, len));
}

impl Fleet {
    closed spec fn ships_v(&self) -> Seq<ShipV> {
        self.ships@.map_values(|s: Ship| ship_v(s))
    }

    /// Index of the first ship covering `cell`.
    fn occupies(&self, cell: usize) -> (r: Option<usize>)
        ensures
            r matches Some(i) ==> ship_at(self.ships_v(), cell) == Some(i as int) && i < self.ships@.len(),
            r is None ==> ship_at(self.ships_v(), cell) is None,
    {
        let mut i: usize = 0;
        while i < self.ships.len()
            invariant
                0 <= i <= self.ships@.len(),
                ship_at(self.ships_v(), cell) == ship_at_from(self.ships_v(), cell, i as int),
            decreases self.ships@.len() - i,
        {
            let mut j: usize = 0;
            let mut found = false;
            while j < self.ships[i].cells.len()
                invariant
                    0 <= i < self.ships@.len(),
                    0 <= j <= self.ships@[i as int].cells@.len(),
                    found == exists|q: int| 0 <= q < j && self.ships@[i as int].cells@[q] == cell,
                decreases self.ships@[i as int].cells@.len() - j,
            {
                if self.ships[i].cells[j] == cell {
                    found = true;
                }
                j += 1;
            }
            assert(self.ships_v()[i as int].cells == self.ships@[i as int].cells@);
            if found {
                return Some(i);
            }
            i += 1;
        }
        None
    }

    /// Every hull cell of ship `si` has been fired at.
    fn ship_down(&self, si: usize) -> (r: bool)
        requires
            si < self.ships@.len(),
            hulls_ok(self.ships_v()),
        ensures
            r == all_hit(self.ships_v()[si as int], self.incoming@),
    {
        let ghost sv = self.ships_v()[si as int];
        assert(sv.cells == self.ships@[si as int].cells@);
        let mut j: usize = 0;
        while j < self.ships[si].cells.len()
            invariant
                si < self.ships@.len(),
                sv.cells == self.ships@[si as int].cells@,
                hulls_ok(self.ships_v()),
                sv == self.ships_v()[si as int],
                0 <= j <= sv.cells.len(),
                forall|k: int| 0 <= k < j ==> #[trigger] self.incoming@[sv.cells[k] as int],
            decreases sv.cells.len() - j,
        {
            let c = self.ships[si].cells[j];
            assert(c < 100);
            if !self.incoming[c] {
                return false;
            }
            j += 1;
        }
        true
    }

    /// Every ship is down.
    fn all_down(&self) -> (r: bool)
        ensures
            r == all_sunk(self.ships_v()),
    {
        let mut i: usize = 0;
        while i < self.ships.len()
            invariant
                0 <= i <= self.ships@.len(),
                forall|k: int| 0 <= k < i ==> (#[trigger] self.ships_v()[k]).sunk,
            decreases self.ships@.len() - i,
        {
            if !self.ships[i].sunk {
                assert(!self.ships_v()[i as int].sunk);
                return false;
            }
            i += 1;
        }
        true
    }
}

/// Cells of a hull of `len` starting at `(row, col)`, running right when
/// `horizontal`, down otherwise.
pub open spec fn hull_spec(horizontal: bool, row: int, col: int, len: int) -> Seq<usize> {
    Seq::new(len as nat, |s: int| (if horizontal { row * 10 + col + s } else { (row + s) * 10 + col }) as usize)
}

/// A hull that fits on the board.
pub open spec fn hull_fits(horizontal: bool, row: int, col: int, len: int) -> bool {
    if horizontal {
        0 <= row < 10 && 0 <= col && col + len <= 10
    } else {
        0 <= row && row + len <= 10 && 0 <= col < 10
    }
}

/// A freshly placed fleet: ships of the classic fleet in order, each a
/// straight hull on the board of its kind's length, no two sharing a cell,
/// none sunk, nothing fired at yet.
pub open spec fn fresh_fleet(ships: Seq<ShipV>, incoming: Seq<bool>) -> bool {
    &&& ships.len() == 5
    &&& fleet_so_far(ships, incoming)
}

/// The first ships of a fresh fleet: the classic kinds in order, each a
/// straight hull on the board of its kind's length, no two sharing a cell,
/// none sunk, nothing fired at yet.
pub open spec fn fleet_so_far(ships: Seq<ShipV>, incoming: Seq<bool>) -> bool {
    &&& ships.len() <= 5
    &&& forall|k: int| 0 <= k < ships.len() ==> (#[trigger] ships[k]).kind == FLEET[k]
    &&& forall|k: int| 0 <= k < ships.len() ==> {
        &&& (#[trigger] ships[k]).cells.len() == kind_len(ships[k].kind)
        &&& !ships[k].sunk
        &&& exists|h: bool, r: int, c: int|
            hull_fits(h, r, c, kind_len(ships[k].kind) as int) && ships[k].cells == hull_spec(
                h,
                r,
                c,
                kind_len(ships[k].kind) as int,
            )
    }
    &&& forall|a: int, b: int, i: int, j: int|
        0 <= a < b < ships.len() && 0 <= i < ships[a].cells.len() && 0 <= j < ships[b].cells.len()
            ==> #[trigger] ships[a].cells[i] != #[trigger] ships[b].cells[j]
    &&& hulls_ok(ships)
    &&& forall|c: int| 0 <= c < 100 ==> !#[trigger] incoming[c]
}

/// Whether the hull of `len` at `(row, col)` avoids every used cell.
fn hull_free(used: &[bool; 100], horizontal: bool, row: usize, col: usize, len: usize) -> (r: bool)
    requires
        hull_fits(horizontal, row as int, col as int, len as int),
    ensures
        r == forall|s: int| 0 <= s < len ==> !#[trigger] used@[hull_spec(horizontal, row as int, col as int, len as int)[s] as int],
{
    let mut s: usize = 0;
    while s < len
        invariant
            hull_fits(horizontal, row as int, col as int, len as int),
            0 <= s <= len,
            forall|q: int| 0 <= q < s ==> !#[trigger] used@[hull_spec(horizontal, row as int, col as int, len as int)[q] as int],
        decreases len - s,
    {
        let cell = if horizontal {
            row * 10 + col + s
        } else {
            (row + s) * 10 + col
        };
        assert(cell == hull_spec(horizontal, row as int, col as int, len as int)[s as int]);
        if used[cell] {
            return false;
        }
        s += 1;
    }
    true
}

/// The hull of `len` at `(row, col)` fits on the board and avoids every
/// used cell.
pub open spec fn hull_free_spec(used: Seq<bool>, horizontal: bool, row: int, col: int, len: int) -> bool {
    &&& hull_fits(horizontal, row, col, len)
    &&& forall|s: int| 0 <= s < len ==> !#[trigger] used[hull_spec(horizontal, row, col, len)[s] as int]
}

/// Places one ship of `kind` uniformly among the hulls that avoid `used`
/// (marking its cells), or nothing when no hull is free.
fn place_ship(kind: ShipKind, used: &mut [bool; 100], rng: &mut StdRng) -> (r: Option<Ship>)
    ensures
        r matches Some(sh) ==> {
            &&& sh.kind == kind
            &&& !sh.sunk
            &&& sh.cells@.len() == kind_len(kind)
            &&& exists|h: bool, row: int, col: int|
                hull_fits(h, row, col, kind_len(kind) as int) && sh.cells@ == hull_spec(h, row, col, kind_len(kind) as int)
            &&& forall|j: int| 0 <= j < sh.cells@.len() ==> !old(used)@[#[trigger] sh.cells@[j] as int]
            &&& forall|c: int| 0 <= c < 100 ==> #[trigger] final(used)@[c] == (old(used)@[c] || sh.cells@.contains(c as usize))
        },
        r is None ==> final(used)@ == old(used)@,
        r is None <==> !exists|h: bool, row: int, col: int|
            #[trigger] hull_free_spec(old(used)@, h, row, col, kind_len(kind) as int),
{
    let len = kind.len();
    let mut options: Vec<(bool, usize, usize)> = Vec::new();
    let mut h: usize = 0;
    while h < 2
        invariant
            0 <= h <= 2,
            2 <= len <= 5,
            forall|k: int| 0 <= k < options@.len() ==> {
                let (hz, row, col) = #[trigger] options@[k];
                &&& hull_fits(hz, row as int, col as int, len as int)
                &&& forall|s: int| 0 <= s < len ==> !#[trigger] used@[hull_spec(hz, row as int, col as int, len as int)[s] as int]
            },
            options@.len() == 0 ==> forall|hz: bool, rr: int, cc: int|
                #[trigger] hull_free_spec(used@, hz, rr, cc, len as int) ==> !((hz && h >= 1) || (!hz
                    && h >= 2)),
        decreases 2 - h,
    {
        let horizontal = h == 0;
        let rows = if horizontal {
            10
        } else {
            10 - len + 1
        };
        let cols = if horizontal {
            10 - len + 1
        } else {
            10
        };
        let mut row: usize = 0;
        while row < rows
            invariant
                0 <= row <= rows,
                2 <= len <= 5,
                horizontal ==> rows == 10 && cols == 11 - len,
                !horizontal ==> rows == 11 - len && cols == 10,
                forall|k: int| 0 <= k < options@.len() ==> {
                    let (hz, rr, cc) = #[trigger] options@[k];
                    &&& hull_fits(hz, rr as int, cc as int, len as int)
                    &&& forall|s: int| 0 <= s < len ==> !#[trigger] used@[hull_spec(hz, rr as int, cc as int, len as int)[s] as int]
                },
                h < 2,
                horizontal == (h == 0),
                options@.len() == 0 ==> forall|hz: bool, rr: int, cc: int|
                    #[trigger] hull_free_spec(used@, hz, rr, cc, len as int) ==> !((hz && h >= 1) || (
                    !hz && h >= 2) || (hz == horizontal && rr < row)),
            decreases rows - row,
        {
            let mut col: usize = 0;
            while col < cols
                invariant
                    0 <= row < rows,
                    0 <= col <= cols,
                    2 <= len <= 5,
                    horizontal ==> rows == 10 && cols == 11 - len,
                    !horizontal ==> rows == 11 - len && cols == 10,
                    forall|k: int| 0 <= k < options@.len() ==> {
                        let (hz, rr, cc) = #[trigger] options@[k];
                        &&& hull_fits(hz, rr as int, cc as int, len as int)
                        &&& forall|s: int| 0 <= s < len ==> !#[trigger] used@[hull_spec(hz, rr as int, cc as int, len as int)[s] as int]
                    },
                    h < 2,
                    horizontal == (h == 0),
                    options@.len() == 0 ==> forall|hz: bool, rr: int, cc: int|
                        #[trigger] hull_free_spec(used@, hz, rr, cc, len as int) ==> !((hz && h >= 1) || (
                        !hz && h >= 2) || (hz == horizontal && rr < row) || (hz == horizontal && rr
                        == row && cc < col)),
                decreases cols - col,
            {
                if hull_free(used, horizontal, row, col, len) {
                    options.push((horizontal, row, col));
                } else {
                    assert(!hull_free_spec(used@, horizontal, row as int, col as int, len as int));
                }
                col += 1;
            }
            assert(options@.len() == 0 ==> forall|hz: bool, rr: int, cc: int|
                #[trigger] hull_free_spec(used@, hz, rr, cc, len as int) ==> !((hz && h >= 1) || (!hz
                    && h >= 2) || (hz == horizontal && rr < row + 1)));
            row += 1;
        }
        assert(options@.len() == 0 ==> forall|hz: bool, rr: int, cc: int|
            #[trigger] hull_free_spec(used@, hz, rr, cc, len as int) ==> !((hz && h + 1 >= 1) || (!hz
                && h + 1 >= 2)));
        h += 1;
    }
    if options.len() == 0 {
        return None;
    }
    let pick = random_below_in(rng, options.len());
    let (horizontal, row, col) = options[pick];
    let ghost hull = hull_spec(horizontal, row as int, col as int, len as int);
    let ghost used0 = used@;
    assert(options@[pick as int] == (horizontal, row, col));
    assert(hull_free_spec(used0, horizontal, row as int, col as int, len as int));
    let mut cells: Vec<usize> = Vec::new();
    let mut s: usize = 0;
    while s < len
        invariant
            hull_fits(horizontal, row as int, col as int, len as int),
            hull == hull_spec(horizontal, row as int, col as int, len as int),
            forall|q: int| 0 <= q < len ==> !#[trigger] used0[hull[q] as int],
            0 <= s <= len,
            cells@ == hull.take(s as int),
            forall|c: int| 0 <= c < 100 ==> #[trigger] used@[c] == (used0[c] || cells@.contains(c as usize)),
        decreases len - s,
    {
        let cell = if horizontal {
            row * 10 + col + s
        } else {
            (row + s) * 10 + col
        };
        assert(cell == hull[s as int]);
        // Commit cell by cell; the hull was validated as a whole above.
        used[cell] = true;
        cells.push(cell);
        proof {
            assert(hull.take(s + 1) =~= hull.take(s as int).push(cell));
            assert forall|c: int| 0 <= c < 100 implies #[trigger] used@[c] == (used0[c] || cells@.contains(c as usize)) by {
                if c == cell {
                    assert(cells@[s as int] == cell);
                } else if cells@.contains(c as usize) {
                    let q = choose|q: int| 0 <= q < cells@.len() && cells@[q] == c as usize;
                    assert(q < s);
                    assert(cells@.take(s as int)[q] == c as usize);
                    assert(hull.take(s as int).contains(c as usize));
                }
            }
        }
        s += 1;
    }
    assert(hull.take(len as int) =~= hull);
    Some(Ship { kind, cells, sunk: false })
}

/// The fleet after a shot at `cell` lands (with `inc` already marking it):
/// a ship whose whole hull is now hit goes down.
pub open spec fn ships_after_shot(ships: Seq<ShipV>, inc: Seq<bool>, cell: usize) -> Seq<ShipV> {
    match ship_at(ships, cell) {
        Some(si) => if all_hit(ships[si], inc) {
            ships.update(si, ShipV { kind: ships[si].kind, cells: ships[si].cells, sunk: true })
        } else {
            ships
        },
        None => ships,
    }
}

proof fn lemma_ship_at_same_cells(a: Seq<ShipV>, b: Seq<ShipV>, cell: usize, i: int)
    requires
        a.len() == b.len(),
        forall|k: int| 0 <= k < a.len() ==> (#[trigger] a[k]).cells == b[k].cells,
    ensures
        ship_at_from(a, cell, i) == ship_at_from(b, cell, i),
    decreases a.len() - i,
{
    if 0 <= i < a.len() && !a[i].cells.contains(cell) {
        lemma_ship_at_same_cells(a, b, cell, i + 1);
    }
}

/// Firing at a cell not fired at before shows the shot's outcome there
/// (water, a hit, or a sunk ship); sinking the last ship wins the game for
/// the mover, and otherwise the turn passes. Sink flags are taken to be
/// exact ([`sunk_exact`]), as they are from a fresh fleet on.
pub proof fn law_fire_shows_outcome(g: Battleship, cell: usize, g2: Battleship)
    requires
        g.wf(),
        g.status_spec() is Ongoing,
        cell < 100,
        !g.incoming_of(opposite_of(g.turn_spec()))[cell as int],
        sunk_exact(g.ships_of(opposite_of(g.turn_spec())), g.incoming_of(opposite_of(g.turn_spec()))),
        g.fired(cell, g2),
    ensures
        ({
            let mover = g.turn_spec();
            let foe = opposite_of(mover);
            let o = outcome_spec(
                g.ships_of(foe),
                g.incoming_of(foe).update(cell as int, true),
                cell,
            );
            &&& view_at(g2.ships_of(foe), g2.incoming_of(foe), cell) == match o {
                ShotOutcome::Miss => CellView::Miss,
                ShotOutcome::Hit => CellView::Hit,
                ShotOutcome::Sunk(_) => CellView::Sunk,
            }
            &&& (g2.status_spec() == Status::Won(mover) <==> all_sunk(g2.ships_of(foe)))
            &&& !all_sunk(g2.ships_of(foe)) ==> g2.turn_spec() == foe
        }),
{
    let mover = g.turn_spec();
    let foe = opposite_of(mover);
    let ships = g.ships_of(foe);
    let inc = g.incoming_of(foe).update(cell as int, true);
    let after = ships_after_shot(ships, inc, cell);
    lemma_ship_at_from(ships, cell, 0);
    lemma_ship_at_same_cells(after, ships, cell, 0);
    match ship_at(ships, cell) {
        Some(si) => {
            lemma_ship_at_from(ships, cell, 0);
            if ships[si].sunk {
                let k = choose|k: int| 0 <= k < ships[si].cells.len() && ships[si].cells[k] == cell;
                assert(g.incoming_of(foe)[ships[si].cells[k] as int]);
            }
        },
        None => {},
    }
}

/// What a shot at `cell` reports (with `inc` already marking it).
pub open spec fn outcome_spec(ships: Seq<ShipV>, inc: Seq<bool>, cell: usize) -> ShotOutcome {
    match ship_at(ships, cell) {
        Some(si) => if all_hit(ships[si], inc) {
            ShotOutcome::Sunk(ships[si].kind)
        } else {
            ShotOutcome::Hit
        },
        None => ShotOutcome::Miss,
    }
}

/// The unsunk ships with their lengths, in fleet order.
pub open spec fn remaining_spec(ships: Seq<ShipV>) -> Seq<(ShipKind, usize)>
    decreases ships.len(),
{
    if ships.len() == 0 {
        Seq::empty()
    } else {
        remaining_spec(ships.drop_last()) + if ships.last().sunk {
            Seq::empty()
        } else {
            seq![(ships.last().kind, kind_len(ships.last().kind) as usize)]
        }
    }
}

/// A fleet rebuilt from kinds and hulls, each ship down exactly when its
/// whole hull has been fired at.
pub open spec fn rebuilt(spec: Seq<(ShipKind, Vec<usize>)>, inc: Seq<bool>) -> Seq<ShipV> {
    Seq::new(
        spec.len(),
        |k: int| ShipV { kind: spec[k].0, cells: spec[k].1@, sunk: all_hit(ShipV { kind: spec[k].0, cells: spec[k].1@, sunk: false }, inc) },
    )
}

/// Hull `hull` has a cell that `inc` does not mark as fired at.
pub open spec fn has_unmarked(hull: Seq<usize>, inc: Seq<bool>) -> bool {
    exists|m: int| 0 <= m < hull.len() && !inc[#[trigger] hull[m] as int]
}

/// Kind and length of each listed ship with a cell not marked as fired
/// at, in listing order.
pub open spec fn afloat_listed(spec: Seq<(ShipKind, Vec<usize>)>, inc: Seq<bool>) -> Seq<(ShipKind, usize)>
    decreases spec.len(),
{
    if spec.len() == 0 {
        Seq::empty()
    } else {
        afloat_listed(spec.drop_last(), inc) + if has_unmarked(spec.last().1@, inc) {
            seq![(spec.last().0, kind_len(spec.last().0) as usize)]
        } else {
            Seq::empty()
        }
    }
}

/// After a fleet is rebuilt from kinds and hulls, the ships still afloat
/// are exactly the listed ships with a cell not marked as fired at, in
/// listing order: what [`Battleship::remaining`] reports after
/// [`Battleship::restore_state`].
pub proof fn law_rebuilt_remaining(spec: Seq<(ShipKind, Vec<usize>)>, inc: Seq<bool>)
    ensures
        remaining_spec(rebuilt(spec, inc)) == afloat_listed(spec, inc),
    decreases spec.len(),
{
    if spec.len() > 0 {
        let f = rebuilt(spec, inc);
        let shorter = spec.drop_last();
        law_rebuilt_remaining(shorter, inc);
        assert(f.drop_last() =~= rebuilt(shorter, inc));
        let k = spec.len() - 1;
        let last = f[k];
        assert(f.last() == last);
        let hull = spec.last().1@;
        let probe = ShipV { kind: spec[k].0, cells: spec[k].1@, sunk: false };
        assert(last.cells == hull && probe.cells == hull);
        assert(last.sunk == all_hit(probe, inc));
        if has_unmarked(hull, inc) {
            let m = choose|m: int| 0 <= m < hull.len() && !inc[#[trigger] hull[m] as int];
            assert(!inc[probe.cells[m] as int]);
            assert(!last.sunk);
        } else {
            assert forall|m: int| 0 <= m < last.cells.len() implies #[trigger] inc[last.cells[m] as int] by {
                assert(!inc[hull[m] as int] ==> has_unmarked(hull, inc));
            }
            assert(last.sunk);
        }
    }
}

/// In a fleet rebuilt from kinds and hulls, the ship found at a cell is the
/// first listed hull holding it, and a ship is down exactly when every cell
/// of its hull is marked as fired at: what [`Battleship::own_cell`] and
/// [`Battleship::remaining`] report after [`Battleship::restore_state`].
pub proof fn law_rebuilt_fleet(spec: Seq<(ShipKind, Vec<usize>)>, inc: Seq<bool>, cell: usize)
    ensures
        ship_at(rebuilt(spec, inc), cell) matches Some(k) ==> 0 <= k < spec.len() && spec[k].1@.contains(
            cell,
        ) && forall|j: int| 0 <= j < k ==> !(#[trigger] spec[j].1@).contains(cell),
        ship_at(rebuilt(spec, inc), cell) is None ==> forall|j: int|
            0 <= j < spec.len() ==> !(#[trigger] spec[j].1@).contains(cell),
        forall|k: int|
            0 <= k < spec.len() ==> (#[trigger] rebuilt(spec, inc)[k]).cells == spec[k].1@ && (rebuilt(
                spec,
                inc,
            )[k].sunk <==> all_hit(rebuilt(spec, inc)[k], inc)),
{
    let f = rebuilt(spec, inc);
    lemma_ship_at_from(f, cell, 0);
    lemma_ship_at_first(f, cell, 0);
    assert forall|j: int| 0 <= j < spec.len() implies (#[trigger] spec[j].1@) == f[j].cells by {}
    assert forall|k: int| 0 <= k < spec.len() implies (#[trigger] f[k]).cells == spec[k].1@ && (f[k].sunk
        <==> all_hit(f[k], inc)) by {
        let a = f[k];
        let b = ShipV { kind: spec[k].0, cells: spec[k].1@, sunk: false };
        assert(a.cells == b.cells);
        if all_hit(b, inc) {
            assert forall|m: int| 0 <= m < a.cells.len() implies #[trigger] inc[a.cells[m] as int] by {
                assert(inc[b.cells[m] as int]);
            }
        }
        if all_hit(a, inc) {
            assert forall|m: int| 0 <= m < b.cells.len() implies #[trigger] inc[b.cells[m] as int] by {
                assert(inc[a.cells[m] as int]);
            }
        }
    }
    if let Some(k) = ship_at(f, cell) {
        assert forall|j: int| 0 <= j < k implies !(#[trigger] spec[j].1@).contains(cell) by {
            assert(!f[j].cells.contains(cell));
        }
    } else {
        assert forall|j: int| 0 <= j < spec.len() implies !(#[trigger] spec[j].1@).contains(cell) by {
            assert(!f[j].cells.contains(cell));
        }
    }
}

proof fn lemma_ship_at_first(ships: Seq<ShipV>, cell: usize, i: int)
    requires
        0 <= i,
    ensures
        ship_at_from(ships, cell, i) matches Some(si) ==> forall|j: int|
            i <= j < si ==> !(#[trigger] ships[j]).cells.contains(cell),
    decreases ships.len() - i,
{
    if i < ships.len() && !ships[i].cells.contains(cell) {
        lemma_ship_at_first(ships, cell, i + 1);
    }
}

fn fleet_kind(i: usize) -> (k: ShipKind)
    requires
        i < 5,
    ensures
        k == FLEET[i as int],
{
    match i {
        0 => ShipKind::Carrier,
        1 => ShipKind::Battleship,
        2 => ShipKind::Cruiser,
        3 => ShipKind::Submarine,
        _ => ShipKind::Destroyer,
    }
}

impl Fleet {
    /// Random placement of the classic fleet, drawn from `rng`.
    fn place(rng: &mut StdRng) -> (f: Fleet)
        ensures
            fresh_fleet(f.ships_v(), f.incoming@),
    {
        let mut used: [bool; 100] = [false; 100];
        proof {
            assert forall|c: int| 0 <= c < 100 implies #[trigger] used_ind(used@)(c) <= (|c: int| 0int)(c)
                + (|c: int| 0int)(c) by {}
            lemma_total_le(used_ind(used@), |c: int| 0int, |c: int| 0int, 0, 100);
            lemma_total_zero(0, 100);
        }
        let mut ships: Vec<Ship> = Vec::new();
        let mut i: usize = 0;
        while i < 5
            invariant
                0 <= i <= 5,
                ships@.len() == i,
                used@.len() == 100,
                total(used_ind(used@), 0, 100) <= fleet_cells(i as int),
                fleet_so_far(ships@.map_values(|s: Ship| ship_v(s)), Seq::new(100, |c: int| false)),
                forall|c: int| 0 <= c < 100 ==> #[trigger] used@[c] == exists|k: int, j: int|
                    0 <= k < ships@.len() && 0 <= j < ships@[k].cells@.len() && ships@[k].cells@[j] == c as usize,
            decreases 5 - i,
        {
            let ghost before = ships@;
            let ghost used_before = used@;
            let kind = fleet_kind(i);
            proof {
                lemma_free_hull(used@, kind_len(kind) as int);
            }
            match place_ship(kind, &mut used, rng) {
                Some(sh) => {
                    ships.push(sh);
                    proof {
                        assert forall|c: int| 0 <= c < 100 implies #[trigger] used_ind(used@)(c) <= used_ind(
                            used_before,
                        )(c) + listed_ind(sh.cells@)(c) by {}
                        lemma_total_le(used_ind(used@), used_ind(used_before), listed_ind(sh.cells@), 0, 100);
                        lemma_listed_count(sh.cells@, 0, 100);
                        let sv = ships@.map_values(|s: Ship| ship_v(s));
                        let bv = before.map_values(|s: Ship| ship_v(s));
                        assert forall|k: int| 0 <= k < bv.len() implies #[trigger] sv[k] == bv[k] by {}
                        assert forall|a: int, b: int, x: int, y: int|
                            0 <= a < b < sv.len() && 0 <= x < sv[a].cells.len() && 0 <= y < sv[b].cells.len()
                                implies #[trigger] sv[a].cells[x] != #[trigger] sv[b].cells[y] by {
                            if b == bv.len() {
                                assert(sv[b].cells == sh.cells@);
                                assert(sv[a].cells == before[a].cells@);
                            } else {
                                assert(sv[a] == bv[a] && sv[b] == bv[b]);
                            }
                        }
                        assert forall|k: int| 0 <= k < sv.len() implies {
                            &&& (#[trigger] sv[k]).cells.len() == kind_len(sv[k].kind)
                            &&& !sv[k].sunk
                            &&& exists|h: bool, r: int, c: int|
                                hull_fits(h, r, c, kind_len(sv[k].kind) as int) && sv[k].cells == hull_spec(
                                    h,
                                    r,
                                    c,
                                    kind_len(sv[k].kind) as int,
                                )
                        } by {
                            if k < bv.len() {
                                assert(sv[k] == bv[k]);
                            }
                        }
                        assert(hulls_ok(sv)) by {
                            assert forall|k: int, j: int| 0 <= k < sv.len() && 0 <= j < sv[k].cells.len() implies #[trigger] sv[k].cells[j] < 100 by {
                                if k < bv.len() {
                                    assert(sv[k] == bv[k]);
                                } else {
                                    let (h, r, c) = choose|h: bool, r: int, c: int|
                                        hull_fits(h, r, c, kind_len(sh.kind) as int) && sh.cells@ == hull_spec(h, r, c, kind_len(sh.kind) as int);
                                    assert(sv[k].cells[j] == hull_spec(h, r, c, kind_len(sh.kind) as int)[j]);
                                }
                            }
                        }
                        assert forall|c: int| 0 <= c < 100 implies #[trigger] used@[c] == exists|k: int, j: int|
                            0 <= k < ships@.len() && 0 <= j < ships@[k].cells@.len() && ships@[k].cells@[j] == c as usize by {
                            if sh.cells@.contains(c as usize) {
                                let j = choose|j: int| 0 <= j < sh.cells@.len() && sh.cells@[j] == c as usize;
                                assert(ships@[before.len() as int].cells@[j] == c as usize);
                            }
                            if exists|k: int, j: int|
                                0 <= k < ships@.len() && 0 <= j < ships@[k].cells@.len() && ships@[k].cells@[j] == c as usize {
                                let (k, j) = choose|k: int, j: int|
                                    0 <= k < ships@.len() && 0 <= j < ships@[k].cells@.len() && ships@[k].cells@[j] == c as usize;
                                if k == before.len() {
                                    assert(sh.cells@.contains(c as usize));
                                } else {
                                    assert(ships@[k] == before[k]);
                                }
                            }
                            if exists|k: int, j: int|
                                0 <= k < before.len() && 0 <= j < before[k].cells@.len() && before[k].cells@[j] == c as usize {
                                let (k, j) = choose|k: int, j: int|
                                    0 <= k < before.len() && 0 <= j < before[k].cells@.len() && before[k].cells@[j] == c as usize;
                                assert(ships@[k] == before[k]);
                            }
                        }
                    }
                },
                None => {
                    assert(false);
                },
            }
            i += 1;
        }
        Fleet { ships, incoming: [false; 100] }
    }
}

pub struct Battleship {
    white: Fleet,
    black: Fleet,
    turn: Side,
    status: Status,
    last_shot: Option<(Side, usize, ShotOutcome)>,
}

impl Fleet {
    /// Marks a shot at `cell`, sinking the ship it completes.
    fn take_shot(&mut self, cell: usize) -> (r: ShotOutcome)
        requires
            cell < 100,
            hulls_ok(old(self).ships_v()),
        ensures
            final(self).incoming@ == old(self).incoming@.update(cell as int, true),
            final(self).ships_v() == ships_after_shot(old(self).ships_v(), final(self).incoming@, cell),
            r == outcome_spec(old(self).ships_v(), final(self).incoming@, cell),
            hulls_ok(final(self).ships_v()),
    {
        self.incoming[cell] = true;
        match self.occupies(cell) {
            Some(si) => {
                if self.ship_down(si) {
                    let ghost before = self.ships@;
                    let mut sh = self.ships.remove(si);
                    sh.sunk = true;
                    let kind = sh.kind;
                    self.ships.insert(si, sh);
                    proof {
                        assert(self.ships@ =~= before.update(si as int, sh));
                        assert(self.ships_v() =~= before.map_values(|s: Ship| ship_v(s)).update(si as int, ship_v(sh)));
                    }
                    ShotOutcome::Sunk(kind)
                } else {
                    ShotOutcome::Hit
                }
            },
            None => ShotOutcome::Miss,
        }
    }
}

impl Default for Battleship {
    /// Two fleets placed from a freshly seeded generator.
    fn default() -> (g: Self)
        ensures
            g.wf(),
            fresh_fleet(g.ships_of(Side::White), g.incoming_of(Side::White)),
            fresh_fleet(g.ships_of(Side::Black), g.incoming_of(Side::Black)),
            g.turn_spec() == Side::White,
            g.status_spec() == Status::Ongoing,
            g.last_shot_spec() is None,
    {
        let mut rng = fresh_rng();
        Battleship::new(&mut rng)
    }
}

impl Battleship {
    pub closed spec fn ships_of(&self, side: Side) -> Seq<ShipV> {
        match side {
            Side::White => self.white.ships_v(),
            Side::Black => self.black.ships_v(),
        }
    }

    /// Cells fired at `side`'s fleet.
    pub closed spec fn incoming_of(&self, side: Side) -> Seq<bool> {
        match side {
            Side::White => self.white.incoming@,
            Side::Black => self.black.incoming@,
        }
    }

    pub closed spec fn turn_spec(&self) -> Side {
        self.turn
    }

    pub closed spec fn status_spec(&self) -> Status {
        self.status
    }

    pub closed spec fn last_shot_spec(&self) -> Option<(Side, usize, ShotOutcome)> {
        self.last_shot
    }

    /// Every hull cell lies on the board.
    pub open spec fn wf(&self) -> bool {
        hulls_ok(self.ships_of(Side::White)) && hulls_ok(self.ships_of(Side::Black))
    }

    /// `g` is this game after the mover fires at `cell`: the shot is
    /// recorded against the foe's fleet, a completed hull sinks, sinking the
    /// last ship wins, and otherwise the turn passes.
    pub open spec fn fired(&self, cell: usize, g: Battleship) -> bool {
        let mover = self.turn_spec();
        let foe = opposite_of(mover);
        let inc = self.incoming_of(foe).update(cell as int, true);
        let ships = ships_after_shot(self.ships_of(foe), inc, cell);
        let outcome = outcome_spec(self.ships_of(foe), inc, cell);
        &&& g.incoming_of(foe) == inc
        &&& g.ships_of(foe) == ships
        &&& g.incoming_of(mover) == self.incoming_of(mover)
        &&& g.ships_of(mover) == self.ships_of(mover)
        &&& g.last_shot_spec() == Some((mover, cell, outcome))
        &&& if all_sunk(ships) {
            g.status_spec() == Status::Won(mover) && g.turn_spec() == mover
        } else {
            g.status_spec() == self.status_spec() && g.turn_spec() == foe
        }
    }

    /// Two freshly and randomly placed fleets drawn from `rng` (White's
    /// first), White to fire first.
    pub fn new(rng: &mut StdRng) -> (g: Self)
        ensures
            g.wf(),
            fresh_fleet(g.ships_of(Side::White), g.incoming_of(Side::White)),
            fresh_fleet(g.ships_of(Side::Black), g.incoming_of(Side::Black)),
            g.turn_spec() == Side::White,
            g.status_spec() == Status::Ongoing,
            g.last_shot_spec() is None,
            sunk_exact(g.ships_of(Side::White), g.incoming_of(Side::White)),
            sunk_exact(g.ships_of(Side::Black), g.incoming_of(Side::Black)),
            hulls_apart(g.ships_of(Side::White)),
            hulls_apart(g.ships_of(Side::Black)),
    {
        let white = Fleet::place(rng);
        let black = Fleet::place(rng);
        proof {
            law_fresh_fleet_exact(white.ships_v(), white.incoming@);
            law_fresh_fleet_exact(black.ships_v(), black.incoming@);
        }
        Battleship {
            white,
            black,
            turn: Side::White,
            status: Status::Ongoing,
            last_shot: None,
        }
    }

    pub fn turn(&self) -> (r: Side)
        ensures
            r == self.turn_spec(),
    {
        self.turn
    }

    pub fn status(&self) -> (r: Status)
        ensures
            r == self.status_spec(),
    {
        self.status
    }

    /// Fires the mover's salvo at the opponent. Returns None for invalid
    /// shots (game over, out of range, repeated cell). A shot completing a
    /// hull sinks that ship; sinking the last ship wins, otherwise the turn
    /// passes.
    pub fn fire(&mut self, cell: usize) -> (r: Option<ShotOutcome>)
        requires
            old(self).wf(),
        ensures
            final(self).wf(),
            r is None <==> !(old(self).status_spec() is Ongoing) || cell >= 100 || old(self).incoming_of(
                opposite_of(old(self).turn_spec()),
            )[cell as int],
            r is None ==> *final(self) == *old(self),
            r is Some ==> r == Some(outcome_spec(
                old(self).ships_of(opposite_of(old(self).turn_spec())),
                old(self).incoming_of(opposite_of(old(self).turn_spec())).update(cell as int, true),
                cell,
            )),
            r is Some ==> old(self).fired(cell, *final(self)),
            r is None <==> !(old(self).status_spec() is Ongoing) || cell >= 100 || view_at(
                old(self).ships_of(opposite_of(old(self).turn_spec())),
                old(self).incoming_of(opposite_of(old(self).turn_spec())),
                cell,
            ) != CellView::Unknown,
            r is Some && sunk_exact(
                old(self).ships_of(opposite_of(old(self).turn_spec())),
                old(self).incoming_of(opposite_of(old(self).turn_spec())),
            ) ==> {
                let mover = old(self).turn_spec();
                let foe = opposite_of(mover);
                &&& view_at(final(self).ships_of(foe), final(self).incoming_of(foe), cell) == match r.unwrap() {
                    ShotOutcome::Miss => CellView::Miss,
                    ShotOutcome::Hit => CellView::Hit,
                    ShotOutcome::Sunk(_) => CellView::Sunk,
                }
                &&& (final(self).status_spec() == Status::Won(mover) <==> all_sunk(final(self).ships_of(foe)))
                &&& !all_sunk(final(self).ships_of(foe)) ==> final(self).turn_spec() == foe
            },
            r is Some && sunk_exact(
                old(self).ships_of(opposite_of(old(self).turn_spec())),
                old(self).incoming_of(opposite_of(old(self).turn_spec())),
            ) && hulls_apart(old(self).ships_of(opposite_of(old(self).turn_spec()))) ==> sunk_exact(
                final(self).ships_of(opposite_of(old(self).turn_spec())),
                final(self).incoming_of(opposite_of(old(self).turn_spec())),
            ) && hulls_apart(final(self).ships_of(opposite_of(old(self).turn_spec()))),
    {
        if !self.status.is_ongoing() || cell >= 100 {
            return None;
        }
        let mover = self.turn;
        let (outcome, wiped) = match mover {
            Side::White => {
                if self.black.incoming[cell] {
                    return None;
                }
                let o = self.black.take_shot(cell);
                (o, self.black.all_down())
            },
            Side::Black => {
                if self.white.incoming[cell] {
                    return None;
                }
                let o = self.white.take_shot(cell);
                (o, self.white.all_down())
            },
        };
        self.last_shot = Some((mover, cell, outcome));
        proof {
            let foe = opposite_of(mover);
            if sunk_exact(old(self).ships_of(foe), old(self).incoming_of(foe)) && hulls_apart(old(self).ships_of(foe)) {
                law_shot_keeps_sinks_exact(old(self).ships_of(foe), old(self).incoming_of(foe), cell);
            }
        }
        if wiped {
            self.status = Status::Won(mover);
            proof {
                if sunk_exact(old(self).ships_of(opposite_of(mover)), old(self).incoming_of(opposite_of(mover))) {
                    law_fire_shows_outcome(*old(self), cell, *self);
                }
            }
            return Some(outcome);
        }
        self.turn = mover.opposite();
        proof {
            if sunk_exact(old(self).ships_of(opposite_of(mover)), old(self).incoming_of(opposite_of(mover))) {
                law_fire_shows_outcome(*old(self), cell, *self);
            }
        }
        Some(outcome)
    }

    /// Cells already fired at the opposing waters by `side`.
    pub fn shots_by(&self, side: Side) -> (r: [bool; 100])
        ensures
            r@ == self.incoming_of(opposite_of(side)),
    {
        match side {
            Side::White => self.black.incoming,
            Side::Black => self.white.incoming,
        }
    }

    /// Intelligence view of the opponent's waters from `side`'s seat.
    pub fn enemy_view(&self, side: Side) -> (view: [CellView; 100])
        requires
            self.wf(),
        ensures
            forall|c: int|
                0 <= c < 100 ==> #[trigger] view@[c] == view_at(
                    self.ships_of(opposite_of(side)),
                    self.incoming_of(opposite_of(side)),
                    c as usize,
                ),
    {
        let foe = match side {
            Side::White => &self.black,
            Side::Black => &self.white,
        };
        let mut view: [CellView; 100] = [CellView::Unknown; 100];
        let mut i: usize = 0;
        while i < 100
            invariant
                0 <= i <= 100,
                foe.ships_v() == self.ships_of(opposite_of(side)),
                foe.incoming@ == self.incoming_of(opposite_of(side)),
                forall|c: int| 0 <= c < i ==> #[trigger] view@[c] == view_at(foe.ships_v(), foe.incoming@, c as usize),
            decreases 100 - i,
        {
            if foe.incoming[i] {
                match foe.occupies(i) {
                    Some(si) => {
                        view[i] = if foe.ships[si].sunk {
                            CellView::Sunk
                        } else {
                            CellView::Hit
                        };
                        assert(foe.ships_v()[si as int].sunk == foe.ships@[si as int].sunk);
                    },
                    None => view[i] = CellView::Miss,
                }
            } else {
                view[i] = CellView::Unknown;
            }
            i += 1;
        }
        view
    }

    /// Own board cell: which ship (if any) and whether it has been hit.
    pub fn own_cell(&self, side: Side, cell: usize) -> (r: (Option<ShipKind>, bool))
        requires
            cell < 100,
        ensures
            r.0 == match ship_at(self.ships_of(side), cell) {
                Some(si) => Some(self.ships_of(side)[si].kind),
                None => None,
            },
            r.1 == self.incoming_of(side)[cell as int],
    {
        let fleet = match side {
            Side::White => &self.white,
            Side::Black => &self.black,
        };
        let kind = match fleet.occupies(cell) {
            Some(si) => {
                assert(fleet.ships_v()[si as int].kind == fleet.ships@[si as int].kind);
                Some(fleet.ships[si].kind)
            },
            None => None,
        };
        (kind, fleet.incoming[cell])
    }

    /// Unsunk ships still afloat for `side`.
    pub fn remaining(&self, side: Side) -> (r: Vec<(ShipKind, usize)>)
        ensures
            r@ == remaining_spec(self.ships_of(side)),
    {
        let fleet = match side {
            Side::White => &self.white,
            Side::Black => &self.black,
        };
        let mut out: Vec<(ShipKind, usize)> = Vec::new();
        let mut i: usize = 0;
        while i < fleet.ships.len()
            invariant
                0 <= i <= fleet.ships@.len(),
                fleet.ships_v() == self.ships_of(side),
                out@ == remaining_spec(fleet.ships_v().take(i as int)),
            decreases fleet.ships@.len() - i,
        {
            let ghost sv = fleet.ships_v();
            assert(sv.take(i + 1).drop_last() =~= sv.take(i as int));
            assert(sv[i as int] == ship_v(fleet.ships@[i as int]));
            if !fleet.ships[i].sunk {
                let k = fleet.ships[i].kind;
                out.push((k, k.len()));
            }
            i += 1;
        }
        assert(fleet.ships_v().take(fleet.ships@.len() as int) =~= fleet.ships_v());
        out
    }

    /// Number of ships in `side`'s fleet.
    pub fn ship_count(&self, side: Side) -> (r: usize)
        ensures
            r == self.ships_of(side).len(),
    {
        let fleet = match side {
            Side::White => &self.white,
            Side::Black => &self.black,
        };
        assert(fleet.ships_v().len() == fleet.ships@.len());
        fleet.ships.len()
    }

    /// Every ship's kind and hull, for saving a game.
    pub fn fleet_cells(&self, side: Side) -> (r: Vec<(ShipKind, Vec<usize>)>)
        ensures
            r@.len() == self.ships_of(side).len(),
            forall|k: int|
                0 <= k < r@.len() ==> (#[trigger] r@[k]).0 == self.ships_of(side)[k].kind && r@[k].1@
                    == self.ships_of(side)[k].cells,
    {
        let fleet = match side {
            Side::White => &self.white,
            Side::Black => &self.black,
        };
        let mut out: Vec<(ShipKind, Vec<usize>)> = Vec::new();
        let mut i: usize = 0;
        while i < fleet.ships.len()
            invariant
                0 <= i <= fleet.ships@.len(),
                fleet.ships_v() == self.ships_of(side),
                out@.len() == i,
                forall|k: int|
                    0 <= k < i ==> (#[trigger] out@[k]).0 == fleet.ships_v()[k].kind && out@[k].1@ == fleet.ships_v()[k].cells,
            decreases fleet.ships@.len() - i,
        {
            let cells = copy_cells(&fleet.ships[i].cells);
            out.push((fleet.ships[i].kind, cells));
            i += 1;
        }
        out
    }

    /// Incoming-shot masks, White's waters first.
    pub fn incoming_masks(&self) -> (r: [[bool; 100]; 2])
        ensures
            r@[0]@ == self.incoming_of(Side::White),
            r@[1]@ == self.incoming_of(Side::Black),
    {
        [self.white.incoming, self.black.incoming]
    }

    /// Replaces `side`'s fleet with `ships`, nothing fired at it yet.
    pub fn force_fleet(&mut self, side: Side, ships: Vec<Ship>)
        requires
            forall|k: int, j: int|
                0 <= k < ships@.len() && 0 <= j < ships@[k].cells@.len() ==> #[trigger] ships@[k].cells@[j] < 100,
            old(self).wf(),
        ensures
            final(self).wf(),
            final(self).ships_of(side) == ships@.map_values(|s: Ship| ship_v(s)),
            forall|c: int| 0 <= c < 100 ==> !#[trigger] final(self).incoming_of(side)[c],
            final(self).ships_of(opposite_of(side)) == old(self).ships_of(opposite_of(side)),
            final(self).incoming_of(opposite_of(side)) == old(self).incoming_of(opposite_of(side)),
            final(self).turn_spec() == old(self).turn_spec(),
            final(self).status_spec() == old(self).status_spec(),
    {
        let fleet = Fleet { ships, incoming: [false; 100] };
        proof {
            assert(hulls_ok(fleet.ships_v())) by {
                assert forall|k: int, j: int| 0 <= k < fleet.ships_v().len() && 0 <= j < fleet.ships_v()[k].cells.len() implies #[trigger] fleet.ships_v()[k].cells[j] < 100 by {
                    assert(fleet.ships_v()[k].cells == fleet.ships@[k].cells@);
                }
            }
        }
        match side {
            Side::White => self.white = fleet,
            Side::Black => self.black = fleet,
        }
    }

    /// Full-state overwrite used by session restore: fleets rebuilt from
    /// kinds and hulls (a ship is down when its whole hull was fired at),
    /// the shot masks, `turn` to move, and the status recomputed — a side
    /// with every ship down has lost.
    pub fn restore_state(&mut self, turn: Side, ships_by_side: [Vec<(ShipKind, Vec<usize>)>; 2], masks: [[bool; 100]; 2])
        requires
            forall|s: int, k: int, j: int|
                0 <= s < 2 && 0 <= k < ships_by_side@[s]@.len() && 0 <= j < ships_by_side@[s]@[k].1@.len()
                    ==> #[trigger] ships_by_side@[s]@[k].1@[j] < 100,
        ensures
            final(self).wf(),
            final(self).ships_of(Side::White) == rebuilt(ships_by_side@[0]@, masks@[0]@),
            final(self).ships_of(Side::Black) == rebuilt(ships_by_side@[1]@, masks@[1]@),
            final(self).incoming_of(Side::White) == masks@[0]@,
            final(self).incoming_of(Side::Black) == masks@[1]@,
            final(self).turn_spec() == turn,
            final(self).last_shot_spec() is None,
            final(self).status_spec() == if all_sunk(rebuilt(ships_by_side@[0]@, masks@[0]@)) && all_sunk(
                rebuilt(ships_by_side@[1]@, masks@[1]@),
            ) {
                // Both annihilated cannot happen in play; the side to move
                // is taken to have lost.
                Status::Won(opposite_of(turn))
            } else if all_sunk(rebuilt(ships_by_side@[0]@, masks@[0]@)) {
                Status::Won(Side::Black)
            } else if all_sunk(rebuilt(ships_by_side@[1]@, masks@[1]@)) {
                Status::Won(Side::White)
            } else {
                Status::Ongoing
            },
            remaining_spec(final(self).ships_of(Side::White)) == afloat_listed(ships_by_side@[0]@, masks@[0]@),
            remaining_spec(final(self).ships_of(Side::Black)) == afloat_listed(ships_by_side@[1]@, masks@[1]@),
    {
        proof {
            law_rebuilt_remaining(ships_by_side@[0]@, masks@[0]@);
            law_rebuilt_remaining(ships_by_side@[1]@, masks@[1]@);
        }
        let white = build_fleet(&ships_by_side[0], &masks[0]);
        let black = build_fleet(&ships_by_side[1], &masks[1]);
        self.white = white;
        self.black = black;
        self.turn = turn;
        let w = self.white.all_down();
        let b = self.black.all_down();
        self.status = if w && b {
            Status::Won(turn.opposite())
        } else if w {
            Status::Won(Side::Black)
        } else if b {
            Status::Won(Side::White)
        } else {
            Status::Ongoing
        };
        self.last_shot = None;
    }
}

fn copy_cells(c: &Vec<usize>) -> (r: Vec<usize>)
    ensures
        r@ == c@,
{
    let mut r: Vec<usize> = Vec::new();
    let mut i: usize = 0;
    while i < c.len()
        invariant
            0 <= i <= c@.len(),
            r@ == c@.take(i as int),
        decreases c@.len() - i,
    {
        r.push(c[i]);
        assert(c@.take(i + 1) =~= c@.take(i as int).push(c@[i as int]));
        i += 1;
    }
    assert(c@.take(c@.len() as int) =~= c@);
    r
}

/// A fleet from kinds and hulls with the given shot mask.
fn build_fleet(spec: &Vec<(ShipKind, Vec<usize>)>, incoming: &[bool; 100]) -> (f: Fleet)
    requires
        forall|k: int, j: int| 0 <= k < spec@.len() && 0 <= j < spec@[k].1@.len() ==> #[trigger] spec@[k].1@[j] < 100,
    ensures
        f.ships_v() == rebuilt(spec@, incoming@),
        f.incoming@ == incoming@,
        hulls_ok(f.ships_v()),
{
    let mut ships: Vec<Ship> = Vec::new();
    let mut k: usize = 0;
    while k < spec.len()
        invariant
            0 <= k <= spec@.len(),
            forall|q: int, j: int| 0 <= q < spec@.len() && 0 <= j < spec@[q].1@.len() ==> #[trigger] spec@[q].1@[j] < 100,
            ships@.len() == k,
            forall|q: int| 0 <= q < k ==> #[trigger] ship_v(ships@[q]) == rebuilt(spec@, incoming@)[q],
        decreases spec@.len() - k,
    {
        let cells = copy_cells(&spec[k].1);
        let mut down = true;
        let mut j: usize = 0;
        while j < cells.len()
            invariant
                0 <= j <= cells@.len(),
                cells@ == spec@[k as int].1@,
                0 <= k < spec@.len(),
                forall|q: int, i: int| 0 <= q < spec@.len() && 0 <= i < spec@[q].1@.len() ==> #[trigger] spec@[q].1@[i] < 100,
                down == forall|i: int| 0 <= i < j ==> #[trigger] incoming@[cells@[i] as int],
            decreases cells@.len() - j,
        {
            assert(cells@[j as int] == spec@[k as int].1@[j as int]);
            if !incoming[cells[j]] {
                down = false;
            }
            j += 1;
        }
        let ghost cv = cells@;
        ships.push(Ship { kind: spec[k].0, cells, sunk: down });
        proof {
            let sv = ShipV { kind: spec@[k as int].0, cells: spec@[k as int].1@, sunk: false };
            assert(cv.len() == spec@[k as int].1@.len());
            assert(down == all_hit(sv, incoming@)) by {
                if down {
                    assert forall|i: int| 0 <= i < sv.cells.len() implies #[trigger] incoming@[sv.cells[i] as int] by {
                        assert(cv[i] == sv.cells[i]);
                    }
                } else {
                    let i = choose|i: int| 0 <= i < cv.len() && !#[trigger] incoming@[cv[i] as int];
                    assert(sv.cells[i] == cv[i]);
                }
            }
            assert(ship_v(ships@[k as int]) == rebuilt(spec@, incoming@)[k as int]);
        }
        k += 1;
    }
    let f = Fleet { ships, incoming: *incoming };
    proof {
        assert(f.ships_v() =~= rebuilt(spec@, incoming@)) by {
            assert forall|q: int| 0 <= q < f.ships_v().len() implies f.ships_v()[q] == rebuilt(spec@, incoming@)[q] by {
                assert(ship_v(f.ships@[q]) == rebuilt(spec@, incoming@)[q]);
            }
        }
        assert forall|q: int, j: int| 0 <= q < f.ships_v().len() && 0 <= j < f.ships_v()[q].cells.len() implies #[trigger] f.ships_v()[q].cells[j] < 100 by {
            assert(f.ships_v()[q].cells == spec@[q].1@);
        }
    }
    f
}

/// No two ships of the fleet share a cell.
pub open spec fn hulls_disjoint(ships: Seq<ShipV>) -> bool {
    forall|a: int, b: int, i: int, j: int|
        0 <= a < b < ships.len() && 0 <= i < ships[a].cells.len() && 0 <= j < ships[b].cells.len()
            ==> #[trigger] ships[a].cells[i] != #[trigger] ships[b].cells[j]
}

/// Every ship is marked sunk exactly when its whole hull has been hit.
pub open spec fn sunk_exact(ships: Seq<ShipV>, incoming: Seq<bool>) -> bool {
    forall|k: int| 0 <= k < ships.len() ==> ((#[trigger] ships[k]).sunk <==> all_hit(ships[k], incoming))
}

/// No cell lies in two hulls of the fleet.
pub open spec fn hulls_apart(ships: Seq<ShipV>) -> bool {
    forall|a: int, b: int, i: int, j: int|
        0 <= a < b < ships.len() && 0 <= i < ships[a].cells.len() && 0 <= j < ships[b].cells.len()
            ==> #[trigger] ships[a].cells[i] != #[trigger] ships[b].cells[j]
}

/// A fresh fleet has its sink flags exact (none is down, no cell was hit)
/// and its hulls apart.
pub proof fn law_fresh_fleet_exact(ships: Seq<ShipV>, incoming: Seq<bool>)
    requires
        fresh_fleet(ships, incoming),
    ensures
        sunk_exact(ships, incoming),
        hulls_apart(ships),
{
    assert forall|k: int| 0 <= k < ships.len() implies ((#[trigger] ships[k]).sunk <==> all_hit(ships[k], incoming)) by {
        assert(ships[k].cells.len() == kind_len(ships[k].kind));
        assert(ships[k].cells.len() > 0);
        assert(!incoming[ships[k].cells[0] as int]);
    }
}

/// A shot keeps sink flags exact in a fleet whose hulls lie apart: the
/// ship hit is marked down exactly when its last cell is hit, and no other
/// hull holds the cell. So from a fresh fleet on, every shot leaves the
/// flags exact.
pub proof fn law_shot_keeps_sinks_exact(ships: Seq<ShipV>, incoming: Seq<bool>, cell: usize)
    requires
        sunk_exact(ships, incoming),
        hulls_apart(ships),
        hulls_ok(ships),
        cell < 100,
        incoming.len() == 100,
    ensures
        sunk_exact(ships_after_shot(ships, incoming.update(cell as int, true), cell), incoming.update(cell as int, true)),
        hulls_apart(ships_after_shot(ships, incoming.update(cell as int, true), cell)),
{
    let inc = incoming.update(cell as int, true);
    let after = ships_after_shot(ships, inc, cell);
    lemma_ship_at_from(ships, cell, 0);
    assert forall|k: int| 0 <= k < after.len() implies ((#[trigger] after[k]).sunk <==> all_hit(after[k], inc)) by {
        let holds = ships[k].cells.contains(cell);
        if !holds {
            assert forall|m: int| 0 <= m < ships[k].cells.len() implies inc[ships[k].cells[m] as int]
                == incoming[ships[k].cells[m] as int] by {
                assert(ships[k].cells[m] != cell);
            }
            assert(all_hit(ships[k], inc) == all_hit(ships[k], incoming));
        } else {
            let si = ship_at(ships, cell)->0;
            if si != k {
                let m1 = choose|m: int| 0 <= m < ships[k].cells.len() && ships[k].cells[m] == cell;
                let m2 = choose|m: int| 0 <= m < ships[si].cells.len() && ships[si].cells[m] == cell;
                if si < k {
                    assert(ships[si].cells[m2] != ships[k].cells[m1]);
                } else {
                    assert(ships[k].cells[m1] != ships[si].cells[m2]);
                }
            }
            if !all_hit(ships[k], inc) {
                let m = choose|m: int| 0 <= m < ships[k].cells.len() && !inc[ships[k].cells[m] as int];
                assert(!incoming[ships[k].cells[m] as int]);
                assert(!all_hit(ships[k], incoming));
            }
        }
    }
}

proof fn lemma_ship_at_from(ships: Seq<ShipV>, cell: usize, i: int)
    requires
        0 <= i,
    ensures
        ship_at_from(ships, cell, i) matches Some(si) ==> i <= si < ships.len() && ships[si].cells.contains(
            cell,
        ),
        ship_at_from(ships, cell, i) is None ==> forall|k: int|
            i <= k < ships.len() ==> !(#[trigger] ships[k]).cells.contains(cell),
    decreases ships.len() - i,
{
    if i < ships.len() && !ships[i].cells.contains(cell) {
        lemma_ship_at_from(ships, cell, i + 1);
    }
}

/// A fresh fleet has nothing hit and nothing sunk, so its sunk marks are
/// exact.
pub proof fn law_fresh_fleet_sunk_exact(ships: Seq<ShipV>, incoming: Seq<bool>)
    requires
        fresh_fleet(ships, incoming),
        incoming.len() == 100,
    ensures
        sunk_exact(ships, incoming),
        hulls_disjoint(ships),
{
    assert forall|k: int| 0 <= k < ships.len() implies ((#[trigger] ships[k]).sunk <==> all_hit(
        ships[k],
        incoming,
    )) by {
        assert(ships[k].cells[0] < 100);
        assert(!incoming[ships[k].cells[0] as int]);
    }
}

/// A ship goes down exactly when the last cell of its hull is hit: a shot
/// at a cell not fired at before keeps the sunk marks exact, for a fleet
/// whose hulls do not overlap.
pub proof fn law_shot_keeps_sunk_exact(ships: Seq<ShipV>, incoming: Seq<bool>, cell: usize)
    requires
        incoming.len() == 100,
        cell < 100,
        !incoming[cell as int],
        hulls_ok(ships),
        hulls_disjoint(ships),
        sunk_exact(ships, incoming),
    ensures
        sunk_exact(
            ships_after_shot(ships, incoming.update(cell as int, true), cell),
            incoming.update(cell as int, true),
        ),
{
    let inc = incoming.update(cell as int, true);
    let after = ships_after_shot(ships, inc, cell);
    lemma_ship_at_from(ships, cell, 0);
    assert forall|k: int| 0 <= k < after.len() implies ((#[trigger] after[k]).sunk <==> all_hit(
        after[k],
        inc,
    )) by {
        if ships[k].cells.contains(cell) {
            let j = choose|j: int| 0 <= j < ships[k].cells.len() && ships[k].cells[j] == cell;
            let si = ship_at(ships, cell)->0;
            if si != k {
                let q = choose|q: int| 0 <= q < ships[si].cells.len() && ships[si].cells[q] == cell;
                if si < k {
                    assert(ships[si].cells[q] != ships[k].cells[j]);
                } else {
                    assert(ships[k].cells[j] != ships[si].cells[q]);
                }
            }
            assert(!all_hit(ships[k], incoming));
        } else {
            assert(all_hit(ships[k], inc) == all_hit(ships[k], incoming)) by {
                assert forall|q: int| 0 <= q < ships[k].cells.len() implies inc[ships[k].cells[q] as int]
                    == incoming[ships[k].cells[q] as int] by {
                    assert(ships[k].cells[q] != cell);
                }
            }
            if ship_at(ships, cell) is Some {
                assert(ship_at(ships, cell)->0 != k);
            }
        }
    }
}

} // verus!

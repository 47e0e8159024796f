//! Area counting at the end of a game: each side's stones plus the empty
//! points of every region that only its stones border.

use crate::go::engine::{
    GoState, Player, count_of, group_and_liberties, group_of, lemma_nbrs, nbrs, neighbors, points_of,
};
use vstd::prelude::*;

verus! {

/// The board with every empty point as a black stone and every stone as a
/// white one: its black groups are exactly the empty regions.
pub open spec fn empties_board(cells: Seq<Player>) -> Seq<Player> {
    Seq::new(
        cells.len(),
        |i: int|
            if cells[i] == Player::Empty {
                Player::Black
            } else {
                Player::White
            },
    )
}

/// The empty region around the empty point `x`.
pub open spec fn region_of(cells: Seq<Player>, size: int, x: int) -> Set<int> {
    group_of(empties_board(cells), size, x)
}

/// Some point of `reg` has a neighbour holding a `side` stone.
pub open spec fn borders(cells: Seq<Player>, size: int, reg: Set<int>, side: Player) -> bool {
    exists|y: int, k: int|
        #![trigger reg.contains(y), nbrs(size, cells.len() as int, y)[k]]
        reg.contains(y) && 0 <= k < nbrs(size, cells.len() as int, y).len() && cells[nbrs(
            size,
            cells.len() as int,
            y,
        )[k]] == side
}

/// The colour that alone borders the empty region of `x`, if one does.
pub open spec fn owner_of(cells: Seq<Player>, size: int, x: int) -> Option<Player> {
    let reg = region_of(cells, size, x);
    let b = borders(cells, size, reg, Player::Black);
    let w = borders(cells, size, reg, Player::White);
    if b && !w {
        Some(Player::Black)
    } else if w && !b {
        Some(Player::White)
    } else {
        None
    }
}

/// Empty points below `n` in regions that `side` alone borders.
pub open spec fn territory_upto(cells: Seq<Player>, size: int, side: Player, n: int) -> int
    decreases n,
{
    if n <= 0 {
        0
    } else {
        territory_upto(cells, size, side, n - 1) + if cells[n - 1] == Player::Empty && owner_of(
            cells,
            size,
            n - 1,
        ) == Some(side) {
            1int
        } else {
            0
        }
    }
}

/// The area of `side`: its stones plus its territory.
pub open spec fn area_spec(cells: Seq<Player>, size: int, side: Player) -> int {
    count_of(cells, side, cells.len() as int) + territory_upto(cells, size, side, cells.len() as int)
}

/// An empty point whose region only stones of one colour border counts
/// for that colour's area and not the other's; a region both colours (or
/// neither) border counts for nobody.
pub proof fn law_lone_border_owns(cells: Seq<Player>, size: int, x: int)
    requires
        0 <= x < cells.len(),
        cells[x] == Player::Empty,
    ensures
        ({
            let reg = region_of(cells, size, x);
            let b = borders(cells, size, reg, Player::Black);
            let w = borders(cells, size, reg, Player::White);
            let tb = territory_upto(cells, size, Player::Black, x + 1) - territory_upto(cells, size, Player::Black, x);
            let tw = territory_upto(cells, size, Player::White, x + 1) - territory_upto(cells, size, Player::White, x);
            &&& w && !b ==> tw == 1 && tb == 0
            &&& b && !w ==> tb == 1 && tw == 0
            &&& b == w ==> tb == 0 && tw == 0
        }),
{
}

/// Every empty point's region lies on the board.
pub open spec fn regions_on_board(cells: Seq<Player>, size: int) -> bool {
    forall|x: int, y: int|
        0 <= x < cells.len() && cells[x] == Player::Empty && #[trigger] region_of(cells, size, x).contains(y)
            ==> 0 <= y < cells.len()
}

/// The board with every black stone turned white and every white stone
/// turned black.
pub open spec fn swap_colours(cells: Seq<Player>) -> Seq<Player> {
    Seq::new(
        cells.len(),
        |i: int|
            match cells[i] {
                Player::Black => Player::White,
                Player::White => Player::Black,
                Player::Empty => Player::Empty,
            },
    )
}

/// Area scoring favours neither colour: on the board with the colours of
/// all stones swapped, each side gets exactly the area the other side had.
/// In particular an empty region that only white stones border counts for
/// White just as one that only black stones border counts for Black.
pub proof fn law_area_colour_symmetric(cells: Seq<Player>, size: int)
    requires
        size >= 1,
        regions_on_board(cells, size),
    ensures
        area_spec(swap_colours(cells), size, Player::White) == area_spec(cells, size, Player::Black),
        area_spec(swap_colours(cells), size, Player::Black) == area_spec(cells, size, Player::White),
{
    let sw = swap_colours(cells);
    assert(empties_board(sw) =~= empties_board(cells));
    lemma_swap_counts(cells, cells.len() as int);
    lemma_swap_territory(cells, size, cells.len() as int);
}

proof fn lemma_swap_counts(cells: Seq<Player>, n: int)
    requires
        n <= cells.len(),
    ensures
        count_of(swap_colours(cells), Player::White, n) == count_of(cells, Player::Black, n),
        count_of(swap_colours(cells), Player::Black, n) == count_of(cells, Player::White, n),
    decreases n,
{
    if n > 0 {
        lemma_swap_counts(cells, n - 1);
    }
}

proof fn lemma_swap_owner(cells: Seq<Player>, size: int, x: int)
    requires
        size >= 1,
        regions_on_board(cells, size),
        0 <= x < cells.len(),
        cells[x] == Player::Empty,
    ensures
        owner_of(swap_colours(cells), size, x) == Some(Player::White) <==> owner_of(cells, size, x) == Some(
            Player::Black,
        ),
        owner_of(swap_colours(cells), size, x) == Some(Player::Black) <==> owner_of(cells, size, x) == Some(
            Player::White,
        ),
{
    let sw = swap_colours(cells);
    assert(empties_board(sw) =~= empties_board(cells));
    let reg = region_of(cells, size, x);
    assert(region_of(sw, size, x) == reg);
    let len = cells.len() as int;
    assert(borders(sw, size, reg, Player::White) == borders(cells, size, reg, Player::Black)) by {
        if borders(cells, size, reg, Player::Black) {
            let (y, k) = choose|y: int, k: int|
                #![trigger reg.contains(y), nbrs(size, len, y)[k]]
                reg.contains(y) && 0 <= k < nbrs(size, len, y).len() && cells[nbrs(size, len, y)[k]]
                    == Player::Black;
            lemma_nbrs(size, len, y);
            assert(sw[nbrs(size, len, y)[k]] == Player::White);
        }
        if borders(sw, size, reg, Player::White) {
            let (y, k) = choose|y: int, k: int|
                #![trigger reg.contains(y), nbrs(size, len, y)[k]]
                reg.contains(y) && 0 <= k < nbrs(size, len, y).len() && sw[nbrs(size, len, y)[k]]
                    == Player::White;
            lemma_nbrs(size, len, y);
            assert(cells[nbrs(size, len, y)[k]] == Player::Black);
        }
    }
    assert(borders(sw, size, reg, Player::Black) == borders(cells, size, reg, Player::White)) by {
        if borders(cells, size, reg, Player::White) {
            let (y, k) = choose|y: int, k: int|
                #![trigger reg.contains(y), nbrs(size, len, y)[k]]
                reg.contains(y) && 0 <= k < nbrs(size, len, y).len() && cells[nbrs(size, len, y)[k]]
                    == Player::White;
            lemma_nbrs(size, len, y);
            assert(sw[nbrs(size, len, y)[k]] == Player::Black);
        }
        if borders(sw, size, reg, Player::Black) {
            let (y, k) = choose|y: int, k: int|
                #![trigger reg.contains(y), nbrs(size, len, y)[k]]
                reg.contains(y) && 0 <= k < nbrs(size, len, y).len() && sw[nbrs(size, len, y)[k]]
                    == Player::Black;
            lemma_nbrs(size, len, y);
            assert(cells[nbrs(size, len, y)[k]] == Player::White);
        }
    }
}

proof fn lemma_swap_territory(cells: Seq<Player>, size: int, n: int)
    requires
        size >= 1,
        regions_on_board(cells, size),
        n <= cells.len(),
    ensures
        territory_upto(swap_colours(cells), size, Player::White, n) == territory_upto(cells, size, Player::Black, n),
        territory_upto(swap_colours(cells), size, Player::Black, n) == territory_upto(cells, size, Player::White, n),
    decreases n,
{
    if n > 0 {
        lemma_swap_territory(cells, size, n - 1);
        if cells[n - 1] == Player::Empty {
            lemma_swap_owner(cells, size, n - 1);
        }
    }
}

fn empties_copy(cells: &[Player]) -> (t: Vec<Player>)
    ensures
        t@ == empties_board(cells@),
{
    let mut t: Vec<Player> = Vec::new();
    let mut i: usize = 0;
    while i < cells.len()
        invariant
            0 <= i <= cells@.len(),
            t@ == empties_board(cells@).take(i as int),
        decreases cells@.len() - i,
    {
        let p = if cells[i] == Player::Empty {
            Player::Black
        } else {
            Player::White
        };
        t.push(p);
        assert(empties_board(cells@).take(i + 1) =~= empties_board(cells@).take(i as int).push(p));
        i += 1;
    }
    assert(empties_board(cells@).take(cells@.len() as int) =~= empties_board(cells@));
    t
}

/// Whether the points of `reg` touch a black and a white stone.
fn region_borders(cells: &[Player], size: usize, reg: &Vec<usize>) -> (r: (bool, bool))
    requires
        size >= 1,
        forall|q: int| 0 <= q < reg@.len() ==> #[trigger] reg@[q] < cells@.len(),
    ensures
        r.0 == borders(cells@, size as int, points_of(reg@), Player::Black),
        r.1 == borders(cells@, size as int, points_of(reg@), Player::White),
{
    let len = cells.len();
    let ghost g = points_of(reg@);
    let ghost sz = size as int;
    let ghost ln = len as int;
    let mut b = false;
    let mut w = false;
    let mut q: usize = 0;
    while q < reg.len()
        invariant
            0 <= q <= reg@.len(),
            len == cells@.len(),
            size >= 1,
            sz == size,
            ln == len,
            g == points_of(reg@),
            forall|j: int| 0 <= j < reg@.len() ==> #[trigger] reg@[j] < cells@.len(),
            b == exists|j: int, k: int|
                #![trigger reg@[j], nbrs(sz, ln, reg@[j] as int)[k]]
                0 <= j < q && 0 <= k < nbrs(sz, ln, reg@[j] as int).len() && cells@[nbrs(
                    sz,
                    ln,
                    reg@[j] as int,
                )[k]] == Player::Black,
            w == exists|j: int, k: int|
                #![trigger reg@[j], nbrs(sz, ln, reg@[j] as int)[k]]
                0 <= j < q && 0 <= k < nbrs(sz, ln, reg@[j] as int).len() && cells@[nbrs(
                    sz,
                    ln,
                    reg@[j] as int,
                )[k]] == Player::White,
        decreases reg@.len() - q,
    {
        let y = reg[q];
        let ns = neighbors(size, len, y);
        let ghost nb = nbrs(sz, ln, y as int);
        let mut nb_black = false;
        let mut nb_white = false;
        let mut k: usize = 0;
        while k < ns.len()
            invariant
                0 <= k <= ns@.len(),
                ns@.len() == nb.len(),
                forall|m: int| 0 <= m < ns@.len() ==> #[trigger] ns@[m] == nb[m],
                forall|m: int| 0 <= m < ns@.len() ==> #[trigger] ns@[m] < cells@.len(),
                nb_black == exists|m: int| 0 <= m < k && cells@[#[trigger] nb[m]] == Player::Black,
                nb_white == exists|m: int| 0 <= m < k && cells@[#[trigger] nb[m]] == Player::White,
            decreases ns@.len() - k,
        {
            let c = cells[ns[k]];
            assert(cells@[nb[k as int]] == c);
            if c == Player::Black {
                nb_black = true;
            }
            if c == Player::White {
                nb_white = true;
            }
            k += 1;
        }
        proof {
            assert(reg@[q as int] == y);
            if nb_black {
                let m = choose|m: int| 0 <= m < ns@.len() && cells@[#[trigger] nb[m]] == Player::Black;
                assert(nbrs(sz, ln, reg@[q as int] as int)[m] == nb[m]);
            }
            if nb_white {
                let m = choose|m: int| 0 <= m < ns@.len() && cells@[#[trigger] nb[m]] == Player::White;
                assert(nbrs(sz, ln, reg@[q as int] as int)[m] == nb[m]);
            }
            if !nb_black {
                assert forall|kk: int| 0 <= kk < nbrs(sz, ln, reg@[q as int] as int).len() implies cells@[nbrs(sz, ln, reg@[q as int] as int)[kk]] != Player::Black by {
                    assert(nbrs(sz, ln, reg@[q as int] as int)[kk] == nb[kk]);
                }
            }
            if !nb_white {
                assert forall|kk: int| 0 <= kk < nbrs(sz, ln, reg@[q as int] as int).len() implies cells@[nbrs(sz, ln, reg@[q as int] as int)[kk]] != Player::White by {
                    assert(nbrs(sz, ln, reg@[q as int] as int)[kk] == nb[kk]);
                }
            }
        }
        b = b || nb_black;
        w = w || nb_white;
        q += 1;
    }
    proof {
        assert(b == borders(cells@, sz, g, Player::Black)) by {
            if b {
                let (j, k) = choose|j: int, k: int|
                    0 <= j < reg@.len() && 0 <= k < nbrs(sz, ln, reg@[j] as int).len() && cells@[nbrs(
                        sz,
                        ln,
                        reg@[j] as int,
                    )[k]] == Player::Black;
                assert(g.contains(reg@[j] as int));
            }
            if borders(cells@, sz, g, Player::Black) {
                let (y, k) = choose|y: int, k: int|
                    g.contains(y) && 0 <= k < nbrs(sz, ln, y).len() && cells@[nbrs(sz, ln, y)[k]]
                        == Player::Black;
                let j = choose|j: int| 0 <= j < reg@.len() && reg@[j] as int == y;
                assert(nbrs(sz, ln, reg@[j] as int)[k] == nbrs(sz, ln, y)[k]);
            }
        }
        assert(w == borders(cells@, sz, g, Player::White)) by {
            if w {
                let (j, k) = choose|j: int, k: int|
                    0 <= j < reg@.len() && 0 <= k < nbrs(sz, ln, reg@[j] as int).len() && cells@[nbrs(
                        sz,
                        ln,
                        reg@[j] as int,
                    )[k]] == Player::White;
                assert(g.contains(reg@[j] as int));
            }
            if borders(cells@, sz, g, Player::White) {
                let (y, k) = choose|y: int, k: int|
                    g.contains(y) && 0 <= k < nbrs(sz, ln, y).len() && cells@[nbrs(sz, ln, y)[k]]
                        == Player::White;
                let j = choose|j: int| 0 <= j < reg@.len() && reg@[j] as int == y;
                assert(nbrs(sz, ln, reg@[j] as int)[k] == nbrs(sz, ln, y)[k]);
            }
        }
    }
    (b, w)
}

impl GoState {
    /// Area counts `(black, white)`: each side's stones plus every empty
    /// point whose region only that side's stones border.
    pub fn area(&self) -> (r: (usize, usize))
        requires
            self.wf(),
        ensures
            r.0 == area_spec(self.cells_spec(), self.size_spec(), Player::Black),
            r.1 == area_spec(self.cells_spec(), self.size_spec(), Player::White),
            regions_on_board(self.cells_spec(), self.size_spec()),
    {
        let cells = self.board();
        let size = self.size();
        let len = cells.len();
        let t = empties_copy(cells);
        let ghost c = cells@;
        let ghost sz = size as int;
        let mut b: usize = 0;
        let mut w: usize = 0;
        let mut x: usize = 0;
        while x < len
            invariant
                0 <= x <= len,
                len == c.len(),
                c == cells@,
                sz == size,
                len == size * size,
                t@ == empties_board(c),
                b == count_of(c, Player::Black, x as int) + territory_upto(c, sz, Player::Black, x as int),
                w == count_of(c, Player::White, x as int) + territory_upto(c, sz, Player::White, x as int),
                b + w <= x,
                forall|x2: int, y: int|
                    0 <= x2 < x && c[x2] == Player::Empty && #[trigger] region_of(c, sz, x2).contains(y) ==> 0 <= y
                        < len,
            decreases len - x,
        {
            let p = cells[x];
            if p == Player::Black {
                b = b + 1;
            } else if p == Player::White {
                w = w + 1;
            } else {
                proof {
                    assert(size >= 1) by (nonlinear_arith)
                        requires
                            x < len,
                            len == size * size,
                    ;
                }
                let (reg, _) = group_and_liberties(t.as_slice(), size, x);
                let (tb, tw) = region_borders(cells, size, &reg);
                assert(points_of(reg@) == region_of(c, sz, x as int));
                assert forall|y: int| #[trigger] region_of(c, sz, x as int).contains(y) implies 0 <= y < len by {
                    assert(points_of(reg@).contains(y));
                    let q = choose|q: int| 0 <= q < reg@.len() && reg@[q] as int == y;
                    assert(reg@[q] < t@.len());
                }
                if tb && !tw {
                    b = b + 1;
                } else if tw && !tb {
                    w = w + 1;
                }
            }
            x += 1;
        }
        (b, w)
    }
}

} // verus!

//! Pure Go rules: groups, liberties, captures, suicide, superko, scoring.
//!
//! The board is `size * size` points in row-major order. A point's
//! neighbours are the points straight above, below, left and right of it.

use vstd::prelude::*;
use vstd::set_lib::{lemma_int_range, lemma_len_subset, set_int_range};

verus! {

#[derive(Clone, Copy, PartialEq, Eq, Debug, Structural)]
pub enum Player {
    Empty,
    Black,
    White,
}

pub open spec fn opponent_of(p: Player) -> Player {
    match p {
        Player::Black => Player::White,
        _ => Player::Black,
    }
}

impl Player {
    pub fn opponent(self) -> (r: Self)
        ensures
            r == opponent_of(self),
    {
        match self {
            Player::Black => Player::White,
            _ => Player::Black,
        }
    }

    /// The board glyph of a point: a middle dot, a filled or a hollow circle.
    pub fn symbol(self) -> (r: &'static str)
        ensures
            r@ == match self {
                Player::Empty => "\u{b7}"@,
                Player::Black => "\u{25cf}"@,
                Player::White => "\u{25cb}"@,
            },
    {
        match self {
            Player::Empty => "\u{b7}",
            Player::Black => "\u{25cf}",
            Player::White => "\u{25cb}",
        }
    }
}

#[derive(Clone, Copy, Debug, PartialEq, Eq, Structural)]
pub enum MoveResult {
    Played,
    Occupied,
    Suicide,
    Ko,
    GameOver,
}

/// The neighbours of point `idx` on a board of `len` points with rows of
/// `size`, in the order up, down, left, right.
pub open spec fn nbrs(size: int, len: int, idx: int) -> Seq<int> {
    let up: Seq<int> = if idx >= size {
        seq![idx - size]
    } else {
        seq![]
    };
    let down: Seq<int> = if idx + size < len {
        seq![idx + size]
    } else {
        seq![]
    };
    let left: Seq<int> = if idx >= 1 && idx % size != 0 {
        seq![idx - 1]
    } else {
        seq![]
    };
    let right: Seq<int> = if idx + 1 < len && idx % size + 1 < size {
        seq![idx + 1]
    } else {
        seq![]
    };
    up + down + left + right
}

/// `x` holds a stone of `color` (never true of empty points).
pub open spec fn same_color(cells: Seq<Player>, color: Player, x: int) -> bool {
    color != Player::Empty && cells[x] == color
}

/// Every neighbour of a point of `t` holding a `color` stone is in `t`.
pub open spec fn closed_under(cells: Seq<Player>, size: int, color: Player, t: Set<int>) -> bool {
    forall|g: int, k: int|
        #![trigger t.contains(g), nbrs(size, cells.len() as int, g)[k]]
        t.contains(g) && 0 <= k < nbrs(size, cells.len() as int, g).len() && same_color(
            cells,
            color,
            nbrs(size, cells.len() as int, g)[k],
        ) ==> t.contains(nbrs(size, cells.len() as int, g)[k])
}

/// `g` is the group (chain) of `start`: the smallest set holding `start`
/// closed under same-coloured neighbours. An empty point's group is itself.
pub open spec fn is_group(cells: Seq<Player>, size: int, start: int, g: Set<int>) -> bool {
    &&& g.finite()
    &&& g.contains(start)
    &&& forall|x: int| #[trigger] g.contains(x) ==> 0 <= x < cells.len()
    &&& forall|x: int| #[trigger] g.contains(x) ==> x == start || same_color(cells, cells[start], x)
    &&& closed_under(cells, size, cells[start], g)
    &&& forall|t: Set<int>|
        t.contains(start) && #[trigger] closed_under(cells, size, cells[start], t) ==> g.subset_of(t)
}

/// The group of `start`.
pub open spec fn group_of(cells: Seq<Player>, size: int, start: int) -> Set<int> {
    choose|g: Set<int>| is_group(cells, size, start, g)
}

/// `n` is a neighbour of some point of `g`.
pub open spec fn touches(cells: Seq<Player>, size: int, g: Set<int>, n: int) -> bool {
    exists|x: int| #[trigger] g.contains(x) && nbrs(size, cells.len() as int, x).contains(n)
}

/// The liberties of `g`: empty points next to it.
pub open spec fn liberties_of(cells: Seq<Player>, size: int, g: Set<int>) -> Set<int> {
    Set::new(|n: int| 0 <= n < cells.len() && cells[n] == Player::Empty && touches(cells, size, g, n))
}

/// The neighbours of point `idx` (up, down, left, right).
pub fn neighbors(size: usize, len: usize, idx: usize) -> (out: Vec<usize>)
    requires
        idx < len,
        size >= 1,
    ensures
        out@.len() == nbrs(size as int, len as int, idx as int).len(),
        forall|k: int| 0 <= k < out@.len() ==> #[trigger] out@[k] == nbrs(size as int, len as int, idx as int)[k],
        forall|k: int| 0 <= k < out@.len() ==> #[trigger] out@[k] < len,
{
    let mut out: Vec<usize> = Vec::new();
    if idx >= size {
        out.push(idx - size);
    }
    if len - idx > size {
        out.push(idx + size);
    }
    if idx >= 1 && idx % size != 0 {
        out.push(idx - 1);
    }
    if idx + 1 < len && idx % size + 1 < size {
        out.push(idx + 1);
    }
    out
}

pub proof fn lemma_nbrs(size: int, len: int, idx: int)
    requires
        size >= 1,
        0 <= idx < len,
    ensures
        forall|k: int|
            0 <= k < nbrs(size, len, idx).len() ==> 0 <= #[trigger] nbrs(size, len, idx)[k] < len
                && nbrs(size, len, idx)[k] != idx,
        nbrs(size, len, idx).len() <= 4,
{
}

/// The points listed in `s`.
pub open spec fn points_of(s: Seq<usize>) -> Set<int> {
    Set::new(|x: int| exists|q: int| 0 <= q < s.len() && s[q] as int == x)
}

/// Points marked in `visited`.
pub open spec fn marked(visited: Seq<bool>) -> Set<int> {
    Set::new(|x: int| 0 <= x < visited.len() && visited[x])
}

/// `x` neighbours one of the first `i` entries of `group`.
pub open spec fn near_prefix(size: int, len: int, group: Seq<usize>, i: int, x: int) -> bool {
    exists|j: int| 0 <= j < i && #[trigger] nbrs(size, len, group[j] as int).contains(x)
}

proof fn lemma_marked_len(visited: Seq<bool>)
    ensures
        marked(visited).finite(),
        marked(visited).len() <= visited.len(),
{
    lemma_int_range(0, visited.len() as int);
    lemma_len_subset(marked(visited), set_int_range(0, visited.len() as int));
}

proof fn lemma_group_unique(cells: Seq<Player>, size: int, start: int, g: Set<int>)
    requires
        is_group(cells, size, start, g),
    ensures
        group_of(cells, size, start) == g,
{
    let h = group_of(cells, size, start);
    assert(is_group(cells, size, start, h));
    assert(h.subset_of(g));
    assert(g.subset_of(h));
    assert(h =~= g);
}

/// Empty points other than `start` marked in `visited` (the liberties
/// counted so far by the flood fill).
pub open spec fn lib_marked(cells: Seq<Player>, start: int, visited: Seq<bool>) -> Set<int> {
    Set::new(|x: int| 0 <= x < visited.len() && visited[x] && cells[x] == Player::Empty && x != start)
}

/// What the flood fill keeps true: the group list starts at `start`, holds
/// distinct marked points of the colour, every marked stone of the colour is
/// listed, every marked point is `start` or next to one of the first `i`
/// members, the liberty count counts the marked empty points, and every
/// closed set holding `start` holds the whole list.
pub open spec fn flood_inv(
    cells: Seq<Player>,
    sz: int,
    start: int,
    visited: Seq<bool>,
    group: Seq<usize>,
    liberties: int,
    i: int,
) -> bool {
    let ln = cells.len() as int;
    let color = cells[start];
    &&& visited.len() == ln
    &&& 0 <= start < ln
    &&& group.len() >= 1
    &&& group[0] == start
    &&& group.no_duplicates()
    &&& forall|k: int| 0 <= k < group.len() ==> #[trigger] group[k] < ln
    &&& forall|k: int| 0 <= k < group.len() ==> k == 0 || same_color(cells, color, #[trigger] group[k] as int)
    &&& forall|k: int| 0 <= k < group.len() ==> #[trigger] visited[group[k] as int]
    &&& forall|x: int| 0 <= x < ln && #[trigger] visited[x] && same_color(cells, color, x) ==> group.contains(x as usize)
    &&& forall|x: int| 0 <= x < ln && #[trigger] visited[x] ==> x == start || near_prefix(sz, ln, group, i, x)
    &&& lib_marked(cells, start, visited).finite()
    &&& liberties == lib_marked(cells, start, visited).len()
    &&& forall|t: Set<int>|
        t.contains(start) && #[trigger] closed_under(cells, sz, color, t) ==> forall|k: int|
            0 <= k < group.len() ==> t.contains(#[trigger] group[k] as int)
}

/// All neighbours of the first `i` members are marked.
pub open spec fn done_upto(sz: int, ln: int, visited: Seq<bool>, group: Seq<usize>, i: int) -> bool {
    forall|j: int, m: int|
        #![trigger nbrs(sz, ln, group[j] as int)[m]]
        0 <= j < i && 0 <= m < nbrs(sz, ln, group[j] as int).len() ==> visited[nbrs(sz, ln, group[j] as int)[m]]
}

/// Marks `n`, counting it as a liberty when it is a fresh empty point and
/// adding it to the group when it is a fresh stone of `color`.
fn visit_one(
    cells: &[Player],
    start: usize,
    color: Player,
    n: usize,
    visited: &mut Vec<bool>,
    group: &mut Vec<usize>,
    liberties: &mut usize,
)
    requires
        n < cells@.len(),
        start < cells@.len(),
        old(visited)@.len() == cells@.len(),
        lib_marked(cells@, start as int, old(visited)@).finite(),
        *old(liberties) == lib_marked(cells@, start as int, old(visited)@).len(),
        old(visited)@[start as int],
    ensures
        final(visited)@ == old(visited)@.update(n as int, true),
        lib_marked(cells@, start as int, final(visited)@).finite(),
        *final(liberties) == lib_marked(cells@, start as int, final(visited)@).len(),
        !old(visited)@[n as int] && cells@[n as int] != Player::Empty && cells@[n as int] == color
            ==> final(group)@ == old(group)@.push(n),
        !(!old(visited)@[n as int] && cells@[n as int] != Player::Empty && cells@[n as int] == color)
            ==> final(group)@ == old(group)@,
{
    let ghost v0 = visited@;
    let ghost c = cells@;
    let ghost st = start as int;
    if !visited[n] {
        if cells[n] == Player::Empty {
            proof {
                lemma_int_range(0, c.len() as int);
                lemma_len_subset(lib_marked(c, st, v0), set_int_range(0, c.len() as int).remove(n as int));
                assert(lib_marked(c, st, v0.update(n as int, true)) =~= lib_marked(c, st, v0).insert(n as int));
            }
            *liberties = *liberties + 1;
        } else if cells[n] == color {
            group.push(n);
        }
    }
    visited.set(n, true);
    proof {
        if v0[n as int] || c[n as int] != Player::Empty {
            assert(lib_marked(c, st, visited@) =~= lib_marked(c, st, v0));
        }
    }
}

proof fn lemma_flood_widen(cells: Seq<Player>, sz: int, start: int, v: Seq<bool>, g: Seq<usize>, l: int, i: int)
    requires
        flood_inv(cells, sz, start, v, g, l, i),
        0 <= i,
    ensures
        flood_inv(cells, sz, start, v, g, l, i + 1),
{
    let ln = cells.len() as int;
    assert forall|x: int| 0 <= x < ln && #[trigger] v[x] implies x == start || near_prefix(sz, ln, g, i + 1, x) by {
        if x != start {
            let j = choose|j: int| 0 <= j < i && #[trigger] nbrs(sz, ln, g[j] as int).contains(x);
        }
    }
}

/// One marking step of the flood fill keeps [`flood_inv`] and
/// [`done_upto`].
proof fn lemma_visit_step(
    cells: Seq<Player>,
    sz: int,
    start: int,
    v0: Seq<bool>,
    g0: Seq<usize>,
    l0: int,
    v1: Seq<bool>,
    g1: Seq<usize>,
    l1: int,
    i: int,
    n: int,
)
    requires
        sz >= 1,
        flood_inv(cells, sz, start, v0, g0, l0, i + 1),
        done_upto(sz, cells.len() as int, v0, g0, i),
        0 <= i < g0.len(),
        nbrs(sz, cells.len() as int, g0[i] as int).contains(n),
        0 <= n < cells.len(),
        cells.len() <= usize::MAX,
        v1 == v0.update(n, true),
        lib_marked(cells, start, v1).finite(),
        l1 == lib_marked(cells, start, v1).len(),
        !v0[n] && same_color(cells, cells[start], n) ==> g1 == g0.push(n as usize),
        !(!v0[n] && same_color(cells, cells[start], n)) ==> g1 == g0,
    ensures
        flood_inv(cells, sz, start, v1, g1, l1, i + 1),
        done_upto(sz, cells.len() as int, v1, g1, i),
        g1.len() >= g0.len(),
        forall|m: int| 0 <= m < g0.len() ==> g1[m] == g0[m],
        g1.len() <= g0.len() + 1,
        g1.len() == g0.len() + 1 ==> !v0[n],
{
    let ln = cells.len() as int;
    let color = cells[start];
    let pushed = !v0[n] && same_color(cells, color, n);
    assert(forall|m: int| 0 <= m < g0.len() ==> g1[m] == g0[m]);
    if pushed {
        assert(!g0.contains(n as usize)) by {
            if g0.contains(n as usize) {
                let q = choose|q: int| 0 <= q < g0.len() && g0[q] == n as usize;
                assert(v0[g0[q] as int]);
            }
        }
        assert(g1.no_duplicates()) by {
            assert forall|a: int, b: int| 0 <= a < b < g1.len() implies g1[a] != g1[b] by {
                if b == g0.len() {
                    assert(g0.contains(g1[a]));
                }
            }
        }
        assert forall|t: Set<int>| t.contains(start) && #[trigger] closed_under(cells, sz, color, t) implies forall|k: int|
            0 <= k < g1.len() ==> t.contains(#[trigger] g1[k] as int) by {
            let m = choose|m: int| 0 <= m < nbrs(sz, ln, g0[i] as int).len() && nbrs(sz, ln, g0[i] as int)[m] == n;
            assert(t.contains(g0[i] as int));
            assert(t.contains(n));
            assert forall|k: int| 0 <= k < g1.len() implies t.contains(#[trigger] g1[k] as int) by {
                if k < g0.len() {
                    assert(g1[k] == g0[k]);
                }
            }
        }
    }
    assert forall|k: int| 0 <= k < g1.len() implies #[trigger] v1[g1[k] as int] by {
        if k < g0.len() {
            assert(g1[k] == g0[k]);
        }
    }
    assert forall|x: int| 0 <= x < ln && #[trigger] v1[x] && same_color(cells, color, x) implies g1.contains(x as usize) by {
        if x == n && !v0[x] {
            assert(g1[g1.len() - 1] == n as usize);
        } else {
            assert(v0[x]);
            let q = choose|q: int| 0 <= q < g0.len() && g0[q] == x as usize;
            assert(g1[q] == g0[q]);
        }
    }
    assert forall|x: int| 0 <= x < ln && #[trigger] v1[x] implies x == start || near_prefix(sz, ln, g1, i + 1, x) by {
        if x == n {
            assert(g1[i] == g0[i]);
            assert(nbrs(sz, ln, g1[i] as int).contains(x));
        } else if x != start {
            assert(v0[x]);
            let j = choose|j: int| 0 <= j < i + 1 && #[trigger] nbrs(sz, ln, g0[j] as int).contains(x);
            assert(g1[j] == g0[j]);
        }
    }
    assert forall|j: int, m: int|
        #![trigger nbrs(sz, ln, g1[j] as int)[m]]
        0 <= j < i && 0 <= m < nbrs(sz, ln, g1[j] as int).len() implies v1[nbrs(sz, ln, g1[j] as int)[m]] by {
        assert(g1[j] == g0[j]);
    }
}

/// Flood-fills the group containing `start`; returns its stones (each once,
/// `start` first) and its liberty count.
pub fn group_and_liberties(cells: &[Player], size: usize, start: usize) -> (r: (Vec<usize>, usize))
    requires
        start < cells@.len(),
        size >= 1,
        cells@.len() == size * size,
    ensures
        points_of(r.0@) == group_of(cells@, size as int, start as int),
        is_group(cells@, size as int, start as int, group_of(cells@, size as int, start as int)),
        r.0@.no_duplicates(),
        r.0@.len() >= 1,
        r.0@[0] == start,
        forall|k: int| 0 <= k < r.0@.len() ==> #[trigger] r.0@[k] < cells@.len(),
        r.0@.len() <= cells@.len(),
        r.1 <= cells@.len(),
        r.1 == liberties_of(cells@, size as int, group_of(cells@, size as int, start as int)).len(),
{
    let len = cells.len();
    let color = cells[start];
    let mut group: Vec<usize> = Vec::new();
    group.push(start);
    let mut visited: Vec<bool> = Vec::new();
    let mut z: usize = 0;
    while z < len
        invariant
            0 <= z <= len,
            visited@.len() == z,
            forall|x: int| 0 <= x < z ==> !#[trigger] visited@[x],
        decreases len - z,
    {
        visited.push(false);
        z += 1;
    }
    visited.set(start, true);
    let mut liberties: usize = 0;
    let ghost sz = size as int;
    let ghost ln = len as int;
    let ghost st = start as int;
    proof {
        lemma_marked_len(visited@);
        assert(lib_marked(cells@, st, visited@) =~= Set::empty());
        assert(forall|x: int| 0 <= x < ln && #[trigger] visited@[x] ==> x == start);
        assert(group@.no_duplicates());
        assert(group@[0] == start);
        assert(forall|x: int| 0 <= x < ln && #[trigger] visited@[x] && same_color(cells@, color, x) ==> group@.contains(x as usize)) by {
            assert forall|x: int| 0 <= x < ln && #[trigger] visited@[x] && same_color(cells@, color, x) implies group@.contains(x as usize) by {
                assert(group@[0] == x as usize);
            }
        }
        assert(forall|t: Set<int>|
            t.contains(st) && #[trigger] closed_under(cells@, sz, color, t) ==> forall|k: int|
                0 <= k < group@.len() ==> t.contains(#[trigger] group@[k] as int));
        assert(flood_inv(cells@, sz, st, visited@, group@, liberties as int, 0));
    }
    let mut i: usize = 0;
    while i < group.len()
        invariant
            len == cells@.len(),
            ln == len,
            sz == size,
            st == start,
            size >= 1,
            color == cells@[st],
            0 <= i <= group@.len(),
            flood_inv(cells@, sz, st, visited@, group@, liberties as int, i as int),
            done_upto(sz, ln, visited@, group@, i as int),
            marked(visited@).finite(),
            marked(visited@).len() <= len,
        decreases (len - marked(visited@).len()) * 5 + (group@.len() - i),
    {
        let g = group[i];
        let ns = neighbors(size, len, g);
        proof {
            lemma_nbrs(sz, ln, g as int);
            lemma_flood_widen(cells@, sz, st, visited@, group@, liberties as int, i as int);
        }
        let ghost marked0 = marked(visited@);
        let ghost glen0 = group@.len();
        let ghost grp_start = group@;
        let mut k: usize = 0;
        while k < ns.len()
            invariant
                len == cells@.len(),
                ln == len,
                sz == size,
                st == start,
                size >= 1,
                color == cells@[st],
                0 <= i < glen0 <= group@.len(),
                g == group@[i as int],
                ns@.len() == nbrs(sz, ln, g as int).len(),
                forall|m: int| 0 <= m < ns@.len() ==> #[trigger] ns@[m] == nbrs(sz, ln, g as int)[m],
                forall|m: int| 0 <= m < ns@.len() ==> #[trigger] ns@[m] < len,
                0 <= k <= ns@.len(),
                flood_inv(cells@, sz, st, visited@, group@, liberties as int, i + 1),
                done_upto(sz, ln, visited@, group@, i as int),
                forall|m: int| 0 <= m < glen0 ==> #[trigger] group@[m] == grp_start[m],
                forall|m: int| 0 <= m < k ==> #[trigger] visited@[ns@[m] as int],
                marked(visited@).finite(),
                marked(visited@).len() <= len,
                marked(visited@).len() - marked0.len() >= group@.len() - glen0,
            decreases ns@.len() - k,
        {
            let n = ns[k];
            let ghost v0 = visited@;
            let ghost g0 = group@;
            let ghost l0 = liberties as int;
            proof {
                assert(visited@[group@[0] as int]);
                assert(nbrs(sz, ln, g0[i as int] as int).contains(n as int)) by {
                    assert(nbrs(sz, ln, g as int)[k as int] == n);
                }
            }
            visit_one(cells, start, color, n, &mut visited, &mut group, &mut liberties);
            proof {
                lemma_visit_step(
                    cells@,
                    sz,
                    st,
                    v0,
                    g0,
                    l0,
                    visited@,
                    group@,
                    liberties as int,
                    i as int,
                    n as int,
                );
                if !v0[n as int] {
                    assert(marked(visited@) =~= marked(v0).insert(n as int));
                } else {
                    assert(marked(visited@) =~= marked(v0));
                }
                lemma_marked_len(visited@);
            }
            k += 1;
        }
        proof {
            assert forall|j: int, m: int|
                #![trigger nbrs(sz, ln, group@[j] as int)[m]]
                0 <= j < i + 1 && 0 <= m < nbrs(sz, ln, group@[j] as int).len() implies visited@[nbrs(
                    sz,
                    ln,
                    group@[j] as int,
                )[m]] by {
                if j == i {
                    assert(ns@[m] == nbrs(sz, ln, g as int)[m]);
                }
            }
        }
        i += 1;
    }
    proof {
        lemma_group_result(cells@, sz, st, visited@, group@, liberties as int);
        lemma_points_len(group@);
        lemma_int_range(0, ln);
        assert(points_of(group@).subset_of(set_int_range(0, ln))) by {
            assert forall|x: int| points_of(group@).contains(x) implies set_int_range(0, ln).contains(x) by {
                let q = choose|q: int| 0 <= q < group@.len() && group@[q] as int == x;
            }
        }
        lemma_len_subset(points_of(group@), set_int_range(0, ln));
        lemma_len_subset(lib_marked(cells@, st, visited@), set_int_range(0, ln));
    }
    (group, liberties)
}

/// When every member's neighbours are marked, the list is the group of
/// `start` and the count is its number of liberties.
proof fn lemma_group_result(cells: Seq<Player>, sz: int, start: int, visited: Seq<bool>, group: Seq<usize>, liberties: int)
    requires
        sz >= 1,
        cells.len() <= usize::MAX,
        flood_inv(cells, sz, start, visited, group, liberties, group.len() as int),
        done_upto(sz, cells.len() as int, visited, group, group.len() as int),
    ensures
        points_of(group) == group_of(cells, sz, start),
        is_group(cells, sz, start, group_of(cells, sz, start)),
        liberties == liberties_of(cells, sz, group_of(cells, sz, start)).len(),
{
    let ln = cells.len() as int;
    let color = cells[start];
    let gs = points_of(group);
    assert forall|x: int| #[trigger] gs.contains(x) implies 0 <= x < ln by {
        let q = choose|q: int| 0 <= q < group.len() && group[q] as int == x;
    }
    assert forall|x: int| #[trigger] gs.contains(x) implies x == start || same_color(cells, color, x) by {
        let q = choose|q: int| 0 <= q < group.len() && group[q] as int == x;
    }
    assert(gs.finite()) by {
        lemma_int_range(0, ln);
        lemma_len_subset(gs, set_int_range(0, ln));
    }
    assert(closed_under(cells, sz, color, gs)) by {
        assert forall|x: int, m: int|
            #![trigger gs.contains(x), nbrs(sz, ln, x)[m]]
            gs.contains(x) && 0 <= m < nbrs(sz, ln, x).len() && same_color(cells, color, nbrs(sz, ln, x)[m]) implies gs.contains(
                nbrs(sz, ln, x)[m],
            ) by {
            let q = choose|q: int| 0 <= q < group.len() && group[q] as int == x;
            lemma_nbrs(sz, ln, x);
            let n = nbrs(sz, ln, group[q] as int)[m];
            assert(visited[n]);
            assert(group.contains(n as usize));
            let q2 = choose|q2: int| 0 <= q2 < group.len() && group[q2] == n as usize;
            assert(group[q2] as int == n);
        }
    }
    assert forall|t: Set<int>| t.contains(start) && #[trigger] closed_under(cells, sz, color, t) implies gs.subset_of(t) by {
        assert forall|x: int| gs.contains(x) implies t.contains(x) by {
            let q = choose|q: int| 0 <= q < group.len() && group[q] as int == x;
            assert(t.contains(group[q] as int));
        }
    }
    assert(gs.contains(start)) by {
        assert(group[0] as int == start);
    }
    assert(is_group(cells, sz, start, gs));
    lemma_group_unique(cells, sz, start, gs);
    let libs = liberties_of(cells, sz, gs);
    let lm = lib_marked(cells, start, visited);
    assert forall|x: int| libs.contains(x) implies #[trigger] lm.contains(x) by {
        let y = choose|y: int| #[trigger] gs.contains(y) && nbrs(sz, ln, y).contains(x);
        let q = choose|q: int| 0 <= q < group.len() && group[q] as int == y;
        let m = choose|m: int| 0 <= m < nbrs(sz, ln, y).len() && nbrs(sz, ln, y)[m] == x;
        assert(nbrs(sz, ln, group[q] as int)[m] == x);
        lemma_nbrs(sz, ln, y);
        if x == start {
            assert(group.len() == 1) by {
                if group.len() > 1 {
                    assert(same_color(cells, color, group[1] as int));
                }
            }
            assert(y == start);
        }
    }
    assert forall|x: int| #[trigger] lm.contains(x) implies libs.contains(x) by {
        assert(near_prefix(sz, ln, group, group.len() as int, x));
        let j = choose|j: int| 0 <= j < group.len() && #[trigger] nbrs(sz, ln, group[j] as int).contains(x);
        assert(gs.contains(group[j] as int));
    }
    assert(libs =~= lm);
}

/// `c` with the points of `g` emptied.
pub open spec fn cleared(c: Seq<Player>, g: Set<int>) -> Seq<Player> {
    Seq::new(c.len(), |x: int| if g.contains(x) { Player::Empty } else { c[x] })
}

/// The board after checking, in order, the neighbours `ns` of a freshly
/// placed stone: each `opp` group left without liberties is removed. Also
/// gives the number of stones removed.
pub open spec fn captures_after(cells: Seq<Player>, size: int, opp: Player, ns: Seq<int>) -> (Seq<Player>, int)
    decreases ns.len(),
{
    if ns.len() == 0 {
        (cells, 0)
    } else {
        let (c1, k1) = captures_after(cells, size, opp, ns.drop_last());
        let n = ns.last();
        let g = group_of(c1, size, n);
        if c1[n] == opp && liberties_of(c1, size, g).len() == 0 {
            (cleared(c1, g), k1 + g.len())
        } else {
            (c1, k1)
        }
    }
}

/// Number of `p` points among the first `n`.
pub open spec fn count_of(c: Seq<Player>, p: Player, n: int) -> int
    decreases n,
{
    if n <= 0 {
        0
    } else {
        count_of(c, p, n - 1) + if c[n - 1] == p {
            1int
        } else {
            0int
        }
    }
}

proof fn lemma_count_bounds(c: Seq<Player>, p: Player, n: int)
    requires
        0 <= n,
    ensures
        0 <= count_of(c, p, n) <= n,
    decreases n,
{
    if n > 0 {
        lemma_count_bounds(c, p, n - 1);
    }
}

proof fn lemma_count_update(c: Seq<Player>, p: Player, n: int, x: int, v: Player)
    requires
        0 <= x < c.len(),
        0 <= n <= c.len(),
    ensures
        count_of(c.update(x, v), p, n) == count_of(c, p, n) + if x < n {
            (if v == p { 1int } else { 0int }) - (if c[x] == p { 1int } else { 0int })
        } else {
            0int
        },
    decreases n,
{
    if n > 0 {
        lemma_count_update(c, p, n - 1, x, v);
    }
}

pub proof fn lemma_points_len(s: Seq<usize>)
    requires
        s.no_duplicates(),
    ensures
        points_of(s).finite(),
        points_of(s).len() == s.len(),
{
    let m = s.map_values(|v: usize| v as int);
    assert(m.no_duplicates()) by {
        assert forall|a: int, b: int| 0 <= a < b < m.len() implies m[a] != m[b] by {
            assert(s[a] != s[b]);
        }
    }
    assert(points_of(s) =~= m.to_set()) by {
        assert forall|x: int| points_of(s).contains(x) implies m.to_set().contains(x) by {
            let q = choose|q: int| 0 <= q < s.len() && s[q] as int == x;
            assert(m[q] == x);
        }
        assert forall|x: int| m.to_set().contains(x) implies points_of(s).contains(x) by {
            let q = choose|q: int| 0 <= q < m.len() && m[q] == x;
            assert(s[q] as int == x);
        }
    }
    m.unique_seq_to_set();
}

fn copy_cells(c: &Vec<Player>) -> (r: Vec<Player>)
    ensures
        r@ == c@,
{
    let mut r: Vec<Player> = Vec::new();
    let mut i: usize = 0;
    while i < c.len()
        invariant
            0 <= i <= c@.len(),
            r@ == c@.take(i as int),
        decreases c@.len() - i,
    {
        r.push(c[i]);
        assert(c@.take(i + 1) =~= c@.take(i as int).push(c@[i as int]));
        i += 1;
    }
    assert(c@.take(c@.len() as int) =~= c@);
    r
}

fn same_cells(a: &Vec<Player>, b: &Vec<Player>) -> (r: bool)
    ensures
        r == (a@ == b@),
{
    if a.len() != b.len() {
        return false;
    }
    let mut i: usize = 0;
    while i < a.len()
        invariant
            a@.len() == b@.len(),
            0 <= i <= a@.len(),
            forall|j: int| 0 <= j < i ==> a@[j] == b@[j],
        decreases a@.len() - i,
    {
        if a[i] != b[i] {
            return false;
        }
        i += 1;
    }
    assert(a@ =~= b@);
    true
}

/// Removes the stones of `group` from `trial`, counting them.
fn remove_group(trial: &mut Vec<Player>, group: &Vec<usize>, captured: &mut u32, Ghost(opp): Ghost<Player>)
    requires
        opp != Player::Empty,
        group@.no_duplicates(),
        forall|k: int| 0 <= k < group@.len() ==> #[trigger] group@[k] < old(trial)@.len(),
        forall|k: int| 0 <= k < group@.len() ==> old(trial)@[#[trigger] group@[k] as int] == opp,
        *old(captured) + count_of(old(trial)@, opp, old(trial)@.len() as int) <= u32::MAX,
    ensures
        final(trial)@ == cleared(old(trial)@, points_of(group@)),
        *final(captured) == *old(captured) + group@.len(),
        *final(captured) + count_of(final(trial)@, opp, final(trial)@.len() as int) == *old(captured)
            + count_of(old(trial)@, opp, old(trial)@.len() as int),
{
    let ghost t0 = trial@;
    let ghost c0 = *captured as int;
    let ghost n = t0.len() as int;
    let mut j: usize = 0;
    while j < group.len()
        invariant
            group@.no_duplicates(),
            forall|k: int| 0 <= k < group@.len() ==> #[trigger] group@[k] < n,
            forall|k: int| 0 <= k < group@.len() ==> t0[#[trigger] group@[k] as int] == opp,
            trial@.len() == n,
            t0.len() == n,
            0 <= j <= group@.len(),
            forall|x: int| 0 <= x < n ==> #[trigger] trial@[x] == if points_of(group@.take(j as int)).contains(x) {
                Player::Empty
            } else {
                t0[x]
            },
            *captured + count_of(trial@, opp, n) == c0 + count_of(t0, opp, n),
            *captured == c0 + j,
            c0 + count_of(t0, opp, n) <= u32::MAX,
            opp != Player::Empty,
        decreases group@.len() - j,
    {
        let g = group[j];
        proof {
            assert(!points_of(group@.take(j as int)).contains(g as int)) by {
                if points_of(group@.take(j as int)).contains(g as int) {
                    let q = choose|q: int| 0 <= q < j && group@.take(j as int)[q] as int == g as int;
                    assert(group@[q] == group@[j as int]);
                }
            }
            assert(trial@[g as int] == opp);
            lemma_count_update(trial@, opp, n, g as int, Player::Empty);
            lemma_count_bounds(trial@.update(g as int, Player::Empty), opp, n);
        }
        trial.set(g, Player::Empty);
        *captured = *captured + 1;
        proof {
            let t1 = group@.take(j + 1);
            let tj = group@.take(j as int);
            assert forall|x: int| 0 <= x < n implies #[trigger] trial@[x] == if points_of(t1).contains(x) {
                Player::Empty
            } else {
                t0[x]
            } by {
                if x == g {
                    assert(t1[j as int] as int == x);
                } else {
                    if points_of(t1).contains(x) {
                        let q = choose|q: int| 0 <= q < t1.len() && t1[q] as int == x;
                        assert(q < j);
                        assert(tj[q] as int == x);
                    }
                    if points_of(tj).contains(x) {
                        let q = choose|q: int| 0 <= q < tj.len() && tj[q] as int == x;
                        assert(t1[q] as int == x);
                    }
                }
            }
        }
        j += 1;
    }
    assert(group@.take(group@.len() as int) =~= group@);
    assert(trial@ =~= cleared(t0, points_of(group@)));
}

/// The board after `me` places a stone on `idx` and dead neighbouring
/// enemy groups are removed, with the number of stones removed.
pub open spec fn trial_spec(cells: Seq<Player>, size: int, me: Player, idx: int) -> (Seq<Player>, int) {
    captures_after(cells.update(idx, me), size, opponent_of(me), nbrs(size, cells.len() as int, idx))
}

/// The group of the stone on `idx` has no liberty.
pub open spec fn no_liberty(cells: Seq<Player>, size: int, idx: int) -> bool {
    liberties_of(cells, size, group_of(cells, size, idx)).len() == 0
}

#[derive(Clone)]
pub struct GoState {
    size: usize,
    cells: Vec<Player>,
    pub turn: Player,
    pub captures_black: u32,
    pub captures_white: u32,
    pub passes: u8,
    pub over: bool,
    pub last_move: Option<usize>,
    /// Every whole-board position reached so far with the player then to
    /// move (superko bookkeeping). Positions are kept whole and compared
    /// cell by cell: a repeat is refused exactly when it is one, where a
    /// table of hashes would also refuse a fresh position whose hash
    /// collides with an earlier one's.
    seen: Vec<(Vec<Player>, Player)>,
}

impl GoState {
    pub closed spec fn size_spec(&self) -> int {
        self.size as int
    }

    pub closed spec fn cells_spec(&self) -> Seq<Player> {
        self.cells@
    }

    pub closed spec fn turn_spec(&self) -> Player {
        self.turn
    }

    pub closed spec fn over_spec(&self) -> bool {
        self.over
    }

    pub closed spec fn passes_spec(&self) -> u8 {
        self.passes
    }

    pub closed spec fn captures_spec(&self) -> (u32, u32) {
        (self.captures_black, self.captures_white)
    }

    pub closed spec fn last_move_spec(&self) -> Option<usize> {
        self.last_move
    }

    /// The positions reached so far, each with the player then to move.
    pub closed spec fn seen_spec(&self) -> Seq<(Seq<Player>, Player)> {
        Seq::new(self.seen@.len(), |k: int| (self.seen@[k].0@, self.seen@[k].1))
    }

    /// The board holds `size * size` points.
    pub open spec fn wf(&self) -> bool {
        self.cells_spec().len() == self.size_spec() * self.size_spec()
    }

    /// What [`GoState::play`] answers for `idx`.
    pub open spec fn outcome(&self, idx: int) -> MoveResult {
        if self.over_spec() {
            MoveResult::GameOver
        } else if idx < 0 || idx >= self.cells_spec().len() || self.cells_spec()[idx] != Player::Empty {
            MoveResult::Occupied
        } else {
            let t = trial_spec(self.cells_spec(), self.size_spec(), self.turn_spec(), idx).0;
            if no_liberty(t, self.size_spec(), idx) {
                MoveResult::Suicide
            } else if self.seen_spec().contains((t, opponent_of(self.turn_spec()))) {
                MoveResult::Ko
            } else {
                MoveResult::Played
            }
        }
    }

    /// `g` is this game after the side to move plays on `idx`: the stone
    /// and its captures as [`trial_spec`] gives them, the captured stones
    /// credited to the mover, the turn passed on, the pass count cleared,
    /// and the new position recorded with the opponent to move.
    pub open spec fn placed(&self, idx: int, g: GoState) -> bool {
        let (t, k) = trial_spec(self.cells_spec(), self.size_spec(), self.turn_spec(), idx);
        &&& g.cells_spec() == t
        &&& g.size_spec() == self.size_spec()
        &&& g.turn_spec() == opponent_of(self.turn_spec())
        &&& g.captures_spec().0 == self.captures_spec().0 + if self.turn_spec() == Player::Black {
            k
        } else {
            0
        }
        &&& g.captures_spec().1 == self.captures_spec().1 + if self.turn_spec() == Player::Black {
            0
        } else {
            k
        }
        &&& g.passes_spec() == 0
        &&& g.over_spec() == self.over_spec()
        &&& g.last_move_spec() == Some(idx as usize)
        &&& g.seen_spec() == self.seen_spec().push((t, opponent_of(self.turn_spec())))
    }

    /// `g` is this game after the side to move passes: a second pass in a
    /// row ends the game, otherwise the turn passes on.
    pub open spec fn passed(&self, g: GoState) -> bool {
        &&& g.passes_spec() == self.passes_spec() + 1
        &&& g.last_move_spec() is None
        &&& g.over_spec() == (self.passes_spec() + 1 >= 2)
        &&& g.turn_spec() == if self.passes_spec() + 1 >= 2 {
            self.turn_spec()
        } else {
            opponent_of(self.turn_spec())
        }
        &&& g.cells_spec() == self.cells_spec()
        &&& g.size_spec() == self.size_spec()
        &&& g.seen_spec() == self.seen_spec()
        &&& g.captures_spec().0 == self.captures_spec().0
        &&& g.captures_spec().1 == self.captures_spec().1
    }

    /// A fresh game on a `size` x `size` board, black to move.
    pub fn new(size: usize) -> (g: Self)
        requires
            size * size <= usize::MAX,
        ensures
            g.wf(),
            g.size_spec() == size,
            g.cells_spec() == Seq::new((size * size) as nat, |i: int| Player::Empty),
            g.turn_spec() == Player::Black,
            g.captures_spec().0 == 0,
            g.captures_spec().1 == 0,
            g.passes_spec() == 0,
            !g.over_spec(),
            g.last_move_spec() is None,
            g.seen_spec() == seq![(g.cells_spec(), Player::Black)],
    {
        let n = size * size;
        let mut cells: Vec<Player> = Vec::new();
        let mut i: usize = 0;
        while i < n
            invariant
                0 <= i <= n,
                cells@ == Seq::new(i as nat, |j: int| Player::Empty),
            decreases n - i,
        {
            cells.push(Player::Empty);
            i += 1;
        }
        let snapshot = copy_cells(&cells);
        let mut seen: Vec<(Vec<Player>, Player)> = Vec::new();
        seen.push((snapshot, Player::Black));
        let g = GoState {
            size,
            cells,
            turn: Player::Black,
            captures_black: 0,
            captures_white: 0,
            passes: 0,
            over: false,
            last_move: None,
            seen,
        };
        assert(g.seen_spec() =~= seq![(g.cells_spec(), Player::Black)]);
        g
    }

    /// A game set up directly from `cells` with `turn` to move; the
    /// position history holds just this position.
    pub fn from_cells(size: usize, cells: Vec<Player>, turn: Player) -> (g: Self)
        requires
            cells@.len() == size * size,
        ensures
            g.wf(),
            g.size_spec() == size,
            g.cells_spec() == cells@,
            g.turn_spec() == turn,
            g.captures_spec().0 == 0,
            g.captures_spec().1 == 0,
            g.passes_spec() == 0,
            !g.over_spec(),
            g.last_move_spec() is None,
            g.seen_spec() == seq![(cells@, turn)],
    {
        let snapshot = copy_cells(&cells);
        let mut seen: Vec<(Vec<Player>, Player)> = Vec::new();
        seen.push((snapshot, turn));
        let g = GoState {
            size,
            cells,
            turn,
            captures_black: 0,
            captures_white: 0,
            passes: 0,
            over: false,
            last_move: None,
            seen,
        };
        assert(g.seen_spec() =~= seq![(cells@, turn)]);
        g
    }

    pub fn board(&self) -> (r: &[Player])
        ensures
            r@ == self.cells_spec(),
    {
        self.cells.as_slice()
    }

    /// The side to move.
    pub fn to_move(&self) -> (r: Player)
        ensures
            r == self.turn_spec(),
    {
        self.turn
    }

    /// Stones captured so far by black and by white.
    pub fn captures(&self) -> (r: (u32, u32))
        ensures
            r == self.captures_spec(),
    {
        (self.captures_black, self.captures_white)
    }

    /// Passes in a row so far.
    /// Whether two passes in a row have ended the game.
    pub fn is_over(&self) -> (r: bool)
        ensures
            r == self.over_spec(),
    {
        self.over
    }

    pub fn pass_count(&self) -> (r: u8)
        ensures
            r == self.passes_spec(),
    {
        self.passes
    }

    pub fn size(&self) -> (r: usize)
        ensures
            r == self.size_spec(),
    {
        self.size
    }

    /// A copy of the whole state.
    pub fn copy(&self) -> (r: Self)
        ensures
            r.size_spec() == self.size_spec(),
            r.cells_spec() == self.cells_spec(),
            r.seen_spec() == self.seen_spec(),
            r.turn_spec() == self.turn_spec(),
            r.captures_spec() == self.captures_spec(),
            r.passes_spec() == self.passes_spec(),
            r.over_spec() == self.over_spec(),
            r.last_move_spec() == self.last_move_spec(),
    {
        let mut seen: Vec<(Vec<Player>, Player)> = Vec::new();
        let mut k: usize = 0;
        while k < self.seen.len()
            invariant
                0 <= k <= self.seen@.len(),
                seen@.len() == k,
                forall|j: int| 0 <= j < k ==> (#[trigger] seen@[j]).0@ == self.seen@[j].0@ && seen@[j].1 == self.seen@[j].1,
            decreases self.seen@.len() - k,
        {
            let c = copy_cells(&self.seen[k].0);
            seen.push((c, self.seen[k].1));
            k += 1;
        }
        let r = GoState {
            size: self.size,
            cells: copy_cells(&self.cells),
            turn: self.turn,
            captures_black: self.captures_black,
            captures_white: self.captures_white,
            passes: self.passes,
            over: self.over,
            last_move: self.last_move,
            seen,
        };
        assert(r.seen_spec() =~= self.seen_spec());
        r
    }

    /// Places a stone of the side to move on `idx`. Enemy groups left
    /// without liberties are captured; a move whose own group would have no
    /// liberty is suicide, and one that recreates an earlier position with
    /// the same side to move is refused as ko. Only a played move changes
    /// the state.
    pub fn play(&mut self, idx: usize) -> (r: MoveResult)
        requires
            old(self).wf(),
            old(self).captures_spec().0 + old(self).cells_spec().len() <= u32::MAX,
            old(self).captures_spec().1 + old(self).cells_spec().len() <= u32::MAX,
        ensures
            final(self).wf(),
            r == old(self).outcome(idx as int),
            r != MoveResult::Played ==> *final(self) == *old(self),
            r == MoveResult::Played ==> old(self).placed(idx as int, *final(self)),
            r == MoveResult::Played ==> {
                let (t, k) = trial_spec(old(self).cells_spec(), old(self).size_spec(), old(self).turn_spec(), idx as int);
                &&& t[idx as int] == old(self).turn_spec()
                &&& forall|x: int|
                    0 <= x < t.len() && #[trigger] old(self).cells_spec()[x] == old(self).turn_spec()
                        ==> t[x] == old(self).turn_spec()
                &&& 0 <= k <= old(self).cells_spec().len()
            },
    {
        if self.over {
            return MoveResult::GameOver;
        }
        if idx >= self.cells.len() {
            return MoveResult::Occupied;
        }
        if self.cells[idx] != Player::Empty {
            return MoveResult::Occupied;
        }
        let size = self.size;
        let len = self.cells.len();
        proof {
            assert(size >= 1) by (nonlinear_arith)
                requires
                    idx < len,
                    len == size * size,
            ;
        }
        let me = self.turn;
        let opp = me.opponent();
        let mut trial = copy_cells(&self.cells);
        trial.set(idx, me);
        let ghost t0 = trial@;
        let ghost sz = size as int;
        let ghost nb = nbrs(sz, len as int, idx as int);
        let mut captured: u32 = 0;
        let ns = neighbors(size, len, idx);
        proof {
            assert(ns@ =~= nb.map_values(|v: int| v as usize));
            lemma_count_bounds(t0, opp, len as int);
        }
        let mut k: usize = 0;
        while k < ns.len()
            invariant
                len == t0.len(),
                len == size * size,
                size >= 1,
                sz == size,
                idx < len,
                opp == opponent_of(me),
                trial@.len() == len,
                ns@.len() == nb.len(),
                forall|m: int| 0 <= m < ns@.len() ==> #[trigger] ns@[m] == nb[m],
                forall|m: int| 0 <= m < ns@.len() ==> #[trigger] ns@[m] < len,
                0 <= k <= ns@.len(),
                (trial@, captured as int) == captures_after(t0, sz, opp, nb.take(k as int)),
                captured + count_of(trial@, opp, len as int) == count_of(t0, opp, len as int),
                count_of(t0, opp, len as int) <= len,
                len <= u32::MAX,
                forall|x: int| 0 <= x < len && t0[x] != opp ==> #[trigger] trial@[x] == t0[x],
            decreases ns@.len() - k,
        {
            let n = ns[k];
            let ghost c1 = trial@;
            proof {
                assert(nb.take(k + 1).drop_last() =~= nb.take(k as int));
                assert(nb.take(k + 1).last() == n);
                lemma_count_bounds(trial@, opp, len as int);
            }
            if trial[n] == opp {
                let (group, libs) = group_and_liberties(trial.as_slice(), size, n);
                if libs == 0 {
                    proof {
                        lemma_points_len(group@);
                        assert forall|m: int| 0 <= m < group@.len() implies #[trigger] group@[m] < len && trial@[group@[m] as int] == opp by {
                            assert(group@[m] as int == group@[m] as int);
                            assert(points_of(group@).contains(group@[m] as int));
                        }
                    }
                    remove_group(&mut trial, &group, &mut captured, Ghost(opp));
                }
            }
            k += 1;
        }
        proof {
            assert(nb.take(ns@.len() as int) =~= nb);
            lemma_count_bounds(trial@, opp, len as int);
        }
        let (_, own) = group_and_liberties(trial.as_slice(), size, idx);
        if own == 0 {
            return MoveResult::Suicide;
        }
        let mut dup = false;
        let mut j: usize = 0;
        while j < self.seen.len()
            invariant
                0 <= j <= self.seen@.len(),
                dup == exists|q: int| 0 <= q < j && #[trigger] self.seen_spec()[q] == (trial@, opp),
            decreases self.seen@.len() - j,
        {
            if self.seen[j].1 == opp && same_cells(&self.seen[j].0, &trial) {
                dup = true;
            }
            assert(self.seen_spec()[j as int] == (self.seen@[j as int].0@, self.seen@[j as int].1));
            j += 1;
        }
        if dup {
            return MoveResult::Ko;
        }
        let snapshot = copy_cells(&trial);
        let ghost seen0 = self.seen_spec();
        self.cells = trial;
        match me {
            Player::Black => self.captures_black = self.captures_black + captured,
            _ => self.captures_white = self.captures_white + captured,
        }
        self.seen.push((snapshot, opp));
        self.turn = opp;
        self.passes = 0;
        self.last_move = Some(idx);
        proof {
            assert(self.seen_spec() =~= seen0.push((self.cells_spec(), opp)));
        }
        MoveResult::Played
    }

    /// The side to move passes; two passes in a row end the game.
    pub fn pass(&mut self) -> (r: MoveResult)
        requires
            !old(self).over_spec() ==> old(self).passes_spec() < 255,
        ensures
            old(self).over_spec() ==> r == MoveResult::GameOver && *final(self) == *old(self),
            !old(self).over_spec() ==> r == MoveResult::Played && old(self).passed(*final(self)),
    {
        if self.over {
            return MoveResult::GameOver;
        }
        self.passes = self.passes + 1;
        self.last_move = None;
        if self.passes >= 2 {
            self.over = true;
        } else {
            self.turn = self.turn.opponent();
        }
        MoveResult::Played
    }
}

/// A stone is only ever played on an empty point, its group keeps at least
/// one liberty once the captures are made (no suicide), and the position it
/// leaves, with the opponent to move, has never occurred before (positional
/// superko).
pub proof fn law_played_move_is_legal(g: GoState, idx: int)
    requires
        g.outcome(idx) == MoveResult::Played,
    ensures
        0 <= idx < g.cells_spec().len(),
        g.cells_spec()[idx] == Player::Empty,
        ({
            let t = trial_spec(g.cells_spec(), g.size_spec(), g.turn_spec(), idx).0;
            &&& liberties_of(t, g.size_spec(), group_of(t, g.size_spec(), idx)).len() > 0
            &&& !g.seen_spec().contains((t, opponent_of(g.turn_spec())))
        }),
{
}

} // verus!

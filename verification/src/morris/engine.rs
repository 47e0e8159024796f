//! Pure Nine Men's Morris rules: alternating placement, sliding along board
//! lines, flight at three stones, mill capture with the protected-stone
//! exemption, and wins by reduction or blockade.
//!
//! Points are indexed `0..`[`POINTS`] on three nested squares:
//!
//! ```text
//! 0-----------1-----------2
//! |           |           |
//! |   3-------4-------5   |
//! |   |       |       |   |
//! |   |   6---7---8   |   |
//! |   |   |       |   |   |
//! 9---10--11      12--13--14
//! |   |   |       |   |   |
//! |   |   15--16--17  |   |
//! |   |       |       |   |
//! |   18------19------20  |
//! |           |           |
//! 21----------22----------23
//! ```

use vstd::prelude::*;

verus! {

/// Number of playable points on the board.
pub const POINTS: usize = 24;

/// Number of mill lines.
pub const MILL_COUNT: usize = 16;

/// Neighbours along board lines of point `i`, ascending.
pub open spec fn adjacency_spec(i: int) -> Seq<usize> {
    if i == 0 {
        seq![1, 9]
    } else if i == 1 {
        seq![0, 2, 4]
    } else if i == 2 {
        seq![1, 14]
    } else if i == 3 {
        seq![4, 10]
    } else if i == 4 {
        seq![1, 3, 5, 7]
    } else if i == 5 {
        seq![4, 13]
    } else if i == 6 {
        seq![7, 11]
    } else if i == 7 {
        seq![4, 6, 8]
    } else if i == 8 {
        seq![7, 12]
    } else if i == 9 {
        seq![0, 10, 21]
    } else if i == 10 {
        seq![3, 9, 11, 18]
    } else if i == 11 {
        seq![6, 10, 15]
    } else if i == 12 {
        seq![8, 13, 17]
    } else if i == 13 {
        seq![5, 12, 14, 20]
    } else if i == 14 {
        seq![2, 13, 23]
    } else if i == 15 {
        seq![11, 16]
    } else if i == 16 {
        seq![15, 17, 19]
    } else if i == 17 {
        seq![12, 16]
    } else if i == 18 {
        seq![10, 19]
    } else if i == 19 {
        seq![16, 18, 20, 22]
    } else if i == 20 {
        seq![13, 19]
    } else if i == 21 {
        seq![9, 22]
    } else if i == 22 {
        seq![19, 21, 23]
    } else {
        seq![14, 22]
    }
}

/// Neighbours along board lines of point `i`.
pub fn adjacency(i: usize) -> (r: Vec<usize>)
    requires
        i < POINTS,
    ensures
        r@ == adjacency_spec(i as int),
        forall|k: int| 0 <= k < r@.len() ==> #[trigger] r@[k] < POINTS,
        r@.len() <= 4,
{
    let r = if i == 0 {
        vec![1, 9]
    } else if i == 1 {
        vec![0, 2, 4]
    } else if i == 2 {
        vec![1, 14]
    } else if i == 3 {
        vec![4, 10]
    } else if i == 4 {
        vec![1, 3, 5, 7]
    } else if i == 5 {
        vec![4, 13]
    } else if i == 6 {
        vec![7, 11]
    } else if i == 7 {
        vec![4, 6, 8]
    } else if i == 8 {
        vec![7, 12]
    } else if i == 9 {
        vec![0, 10, 21]
    } else if i == 10 {
        vec![3, 9, 11, 18]
    } else if i == 11 {
        vec![6, 10, 15]
    } else if i == 12 {
        vec![8, 13, 17]
    } else if i == 13 {
        vec![5, 12, 14, 20]
    } else if i == 14 {
        vec![2, 13, 23]
    } else if i == 15 {
        vec![11, 16]
    } else if i == 16 {
        vec![15, 17, 19]
    } else if i == 17 {
        vec![12, 16]
    } else if i == 18 {
        vec![10, 19]
    } else if i == 19 {
        vec![16, 18, 20, 22]
    } else if i == 20 {
        vec![13, 19]
    } else if i == 21 {
        vec![9, 22]
    } else if i == 22 {
        vec![19, 21, 23]
    } else {
        vec![14, 22]
    };
    assert(r@ =~= adjacency_spec(i as int));
    r
}

/// Mill line `k`: eight across, eight down.
pub open spec fn mill_spec(k: int) -> Seq<usize> {
    if k == 0 {
        seq![0, 1, 2]
    } else if k == 1 {
        seq![3, 4, 5]
    } else if k == 2 {
        seq![6, 7, 8]
    } else if k == 3 {
        seq![9, 10, 11]
    } else if k == 4 {
        seq![12, 13, 14]
    } else if k == 5 {
        seq![15, 16, 17]
    } else if k == 6 {
        seq![18, 19, 20]
    } else if k == 7 {
        seq![21, 22, 23]
    } else if k == 8 {
        seq![0, 9, 21]
    } else if k == 9 {
        seq![3, 10, 18]
    } else if k == 10 {
        seq![6, 11, 15]
    } else if k == 11 {
        seq![1, 4, 7]
    } else if k == 12 {
        seq![16, 19, 22]
    } else if k == 13 {
        seq![8, 12, 17]
    } else if k == 14 {
        seq![5, 13, 20]
    } else {
        seq![2, 14, 23]
    }
}

/// Point `p` is one of the three points of mill line `k`.
pub open spec fn on_mill(k: int, p: int) -> bool {
    let m = mill_spec(k);
    m[0] as int == p || m[1] as int == p || m[2] as int == p
}

/// How many of the first `n` mill lines pass through point `p`.
pub open spec fn mills_through(p: int, n: int) -> int
    decreases n,
{
    if n <= 0 {
        0
    } else {
        mills_through(p, n - 1) + if on_mill(n - 1, p) {
            1int
        } else {
            0
        }
    }
}

/// `x` is among the first `n` entries of `s`.
pub open spec fn listed(s: Seq<usize>, x: int, n: int) -> bool
    decreases n,
{
    n > 0 && (s[n - 1] as int == x || listed(s, x, n - 1))
}

/// One of the first `n` mill lines holds both `i` and `j`.
pub open spec fn shared_mill(i: int, j: int, n: int) -> bool
    decreases n,
{
    n > 0 && ((on_mill(n - 1, i) && on_mill(n - 1, j)) || shared_mill(i, j, n - 1))
}

/// Mill line `k` is three distinct points of the board joined in a row by
/// adjacency.
pub open spec fn mill_shaped(k: int) -> bool {
    let m = mill_spec(k);
    &&& m.len() == 3
    &&& m[0] < 24 && m[1] < 24 && m[2] < 24
    &&& m[0] != m[1] && m[1] != m[2] && m[0] != m[2]
    &&& listed(adjacency_spec(m[0] as int), m[1] as int, adjacency_spec(m[0] as int).len() as int)
    &&& listed(adjacency_spec(m[1] as int), m[2] as int, adjacency_spec(m[1] as int).len() as int)
}

/// Every neighbour of `i` among the first `q` of its list shares a mill
/// line with it.
pub open spec fn edges_in_mills(i: int, q: int) -> bool
    decreases q,
{
    q <= 0 || (shared_mill(i, adjacency_spec(i)[q - 1] as int, 16) && edges_in_mills(i, q - 1))
}

proof fn lemma_listed(s: Seq<usize>, x: int, n: int)
    requires
        0 <= n <= s.len(),
    ensures
        listed(s, x, n) ==> s.contains(x as usize) && 0 <= x,
    decreases n,
{
    if n > 0 {
        lemma_listed(s, x, n - 1);
        if s[n - 1] as int == x {
            assert(s.contains(s[n - 1]));
        }
    }
}

proof fn lemma_shared_mill(i: int, j: int, n: int)
    ensures
        shared_mill(i, j, n) ==> exists|k: int| 0 <= k < n && #[trigger] on_mill(k, i) && on_mill(k, j),
    decreases n,
{
    if n > 0 {
        lemma_shared_mill(i, j, n - 1);
    }
}

proof fn lemma_edges_in_mills(i: int, q: int)
    requires
        edges_in_mills(i, q),
    ensures
        forall|r: int| 0 <= r < q ==> #[trigger] shared_mill(i, adjacency_spec(i)[r] as int, 16),
    decreases q,
{
    if q > 0 {
        lemma_edges_in_mills(i, q - 1);
    }
}

proof fn lemma_each_mill_shaped()
    ensures
        forall|k: int| 0 <= k < 16 ==> #[trigger] mill_shaped(k),
{
    reveal_with_fuel(listed, 5);
    assert forall|k: int| 0 <= k < 16 implies #[trigger] mill_shaped(k) by {
        if k == 0 {
            assert(mill_shaped(0));
        } else if k == 1 {
            assert(mill_shaped(1));
        } else if k == 2 {
            assert(mill_shaped(2));
        } else if k == 3 {
            assert(mill_shaped(3));
        } else if k == 4 {
            assert(mill_shaped(4));
        } else if k == 5 {
            assert(mill_shaped(5));
        } else if k == 6 {
            assert(mill_shaped(6));
        } else if k == 7 {
            assert(mill_shaped(7));
        } else if k == 8 {
            assert(mill_shaped(8));
        } else if k == 9 {
            assert(mill_shaped(9));
        } else if k == 10 {
            assert(mill_shaped(10));
        } else if k == 11 {
            assert(mill_shaped(11));
        } else if k == 12 {
            assert(mill_shaped(12));
        } else if k == 13 {
            assert(mill_shaped(13));
        } else if k == 14 {
            assert(mill_shaped(14));
        } else if k == 15 {
            assert(mill_shaped(15));
        }
    }
}

#[verifier::spinoff_prover]
#[verifier::rlimit(100)]
proof fn lemma_points_twice_low()
    ensures
        forall|p: int| 0 <= p < 8 ==> #[trigger] mills_through(p, 16) == 2,
{
    reveal_with_fuel(mills_through, 17);
    assert forall|p: int| 0 <= p < 8 implies #[trigger] mills_through(p, 16) == 2 by {
        if p == 0 {
            assert(mills_through(0, 16) == 2);
        } else if p == 1 {
            assert(mills_through(1, 16) == 2);
        } else if p == 2 {
            assert(mills_through(2, 16) == 2);
        } else if p == 3 {
            assert(mills_through(3, 16) == 2);
        } else if p == 4 {
            assert(mills_through(4, 16) == 2);
        } else if p == 5 {
            assert(mills_through(5, 16) == 2);
        } else if p == 6 {
            assert(mills_through(6, 16) == 2);
        } else if p == 7 {
            assert(mills_through(7, 16) == 2);
        }
    }
}

#[verifier::spinoff_prover]
#[verifier::rlimit(100)]
proof fn lemma_points_twice_mid()
    ensures
        forall|p: int| 8 <= p < 16 ==> #[trigger] mills_through(p, 16) == 2,
{
    reveal_with_fuel(mills_through, 17);
    assert forall|p: int| 8 <= p < 16 implies #[trigger] mills_through(p, 16) == 2 by {
        if p == 8 {
            assert(mills_through(8, 16) == 2);
        } else if p == 9 {
            assert(mills_through(9, 16) == 2);
        } else if p == 10 {
            assert(mills_through(10, 16) == 2);
        } else if p == 11 {
            assert(mills_through(11, 16) == 2);
        } else if p == 12 {
            assert(mills_through(12, 16) == 2);
        } else if p == 13 {
            assert(mills_through(13, 16) == 2);
        } else if p == 14 {
            assert(mills_through(14, 16) == 2);
        } else if p == 15 {
            assert(mills_through(15, 16) == 2);
        }
    }
}

#[verifier::spinoff_prover]
#[verifier::rlimit(100)]
proof fn lemma_points_twice_high()
    ensures
        forall|p: int| 16 <= p < 24 ==> #[trigger] mills_through(p, 16) == 2,
{
    reveal_with_fuel(mills_through, 17);
    assert forall|p: int| 16 <= p < 24 implies #[trigger] mills_through(p, 16) == 2 by {
        if p == 16 {
            assert(mills_through(16, 16) == 2);
        } else if p == 17 {
            assert(mills_through(17, 16) == 2);
        } else if p == 18 {
            assert(mills_through(18, 16) == 2);
        } else if p == 19 {
            assert(mills_through(19, 16) == 2);
        } else if p == 20 {
            assert(mills_through(20, 16) == 2);
        } else if p == 21 {
            assert(mills_through(21, 16) == 2);
        } else if p == 22 {
            assert(mills_through(22, 16) == 2);
        } else if p == 23 {
            assert(mills_through(23, 16) == 2);
        }
    }
}

proof fn lemma_each_point_twice()
    ensures
        forall|p: int| 0 <= p < 24 ==> #[trigger] mills_through(p, 16) == 2,
{
    lemma_points_twice_low();
    lemma_points_twice_mid();
    lemma_points_twice_high();
}

proof fn lemma_each_edge_in_mill()
    ensures
        forall|i: int| 0 <= i < 24 ==> #[trigger] edges_in_mills(i, adjacency_spec(i).len() as int),
{
    reveal_with_fuel(edges_in_mills, 5);
    reveal_with_fuel(shared_mill, 17);
    assert forall|i: int| 0 <= i < 24 implies #[trigger] edges_in_mills(i, adjacency_spec(i).len() as int) by {
        if i == 0 {
            assert(edges_in_mills(0, adjacency_spec(0).len() as int));
        } else if i == 1 {
            assert(edges_in_mills(1, adjacency_spec(1).len() as int));
        } else if i == 2 {
            assert(edges_in_mills(2, adjacency_spec(2).len() as int));
        } else if i == 3 {
            assert(edges_in_mills(3, adjacency_spec(3).len() as int));
        } else if i == 4 {
            assert(edges_in_mills(4, adjacency_spec(4).len() as int));
        } else if i == 5 {
            assert(edges_in_mills(5, adjacency_spec(5).len() as int));
        } else if i == 6 {
            assert(edges_in_mills(6, adjacency_spec(6).len() as int));
        } else if i == 7 {
            assert(edges_in_mills(7, adjacency_spec(7).len() as int));
        } else if i == 8 {
            assert(edges_in_mills(8, adjacency_spec(8).len() as int));
        } else if i == 9 {
            assert(edges_in_mills(9, adjacency_spec(9).len() as int));
        } else if i == 10 {
            assert(edges_in_mills(10, adjacency_spec(10).len() as int));
        } else if i == 11 {
            assert(edges_in_mills(11, adjacency_spec(11).len() as int));
        } else if i == 12 {
            assert(edges_in_mills(12, adjacency_spec(12).len() as int));
        } else if i == 13 {
            assert(edges_in_mills(13, adjacency_spec(13).len() as int));
        } else if i == 14 {
            assert(edges_in_mills(14, adjacency_spec(14).len() as int));
        } else if i == 15 {
            assert(edges_in_mills(15, adjacency_spec(15).len() as int));
        } else if i == 16 {
            assert(edges_in_mills(16, adjacency_spec(16).len() as int));
        } else if i == 17 {
            assert(edges_in_mills(17, adjacency_spec(17).len() as int));
        } else if i == 18 {
            assert(edges_in_mills(18, adjacency_spec(18).len() as int));
        } else if i == 19 {
            assert(edges_in_mills(19, adjacency_spec(19).len() as int));
        } else if i == 20 {
            assert(edges_in_mills(20, adjacency_spec(20).len() as int));
        } else if i == 21 {
            assert(edges_in_mills(21, adjacency_spec(21).len() as int));
        } else if i == 22 {
            assert(edges_in_mills(22, adjacency_spec(22).len() as int));
        } else if i == 23 {
            assert(edges_in_mills(23, adjacency_spec(23).len() as int));
        }
    }
}

/// The mill table is the sixteen lines of the board: each line is three
/// distinct points joined in a row by adjacency, every point lies on
/// exactly two lines (one across, one down), and every two adjacent points
/// lie together on some line.
pub proof fn law_mills_are_board_lines()
    ensures
        forall|k: int| 0 <= k < MILL_COUNT ==> #[trigger] mill_spec(k).len() == 3 && mill_spec(k)[0] < POINTS
            && mill_spec(k)[1] < POINTS && mill_spec(k)[2] < POINTS && mill_spec(k)[0] != mill_spec(k)[1]
            && mill_spec(k)[1] != mill_spec(k)[2] && mill_spec(k)[0] != mill_spec(k)[2] && adjacency_spec(
            mill_spec(k)[0] as int,
        ).contains(mill_spec(k)[1]) && adjacency_spec(mill_spec(k)[1] as int).contains(mill_spec(k)[2]),
        forall|p: int| 0 <= p < POINTS ==> #[trigger] mills_through(p, MILL_COUNT as int) == 2,
        forall|i: int, j: usize|
            0 <= i < POINTS && #[trigger] adjacency_spec(i).contains(j) ==> exists|k: int|
                0 <= k < MILL_COUNT && #[trigger] on_mill(k, i) && on_mill(k, j as int),
{
    lemma_each_mill_shaped();
    lemma_each_point_twice();
    lemma_each_edge_in_mill();
    assert forall|k: int| 0 <= k < MILL_COUNT implies #[trigger] mill_spec(k).len() == 3 && mill_spec(k)[0] < POINTS
        && mill_spec(k)[1] < POINTS && mill_spec(k)[2] < POINTS && mill_spec(k)[0] != mill_spec(k)[1]
        && mill_spec(k)[1] != mill_spec(k)[2] && mill_spec(k)[0] != mill_spec(k)[2] && adjacency_spec(
        mill_spec(k)[0] as int,
    ).contains(mill_spec(k)[1]) && adjacency_spec(mill_spec(k)[1] as int).contains(mill_spec(k)[2]) by {
        assert(mill_shaped(k));
        let m = mill_spec(k);
        lemma_listed(adjacency_spec(m[0] as int), m[1] as int, adjacency_spec(m[0] as int).len() as int);
        lemma_listed(adjacency_spec(m[1] as int), m[2] as int, adjacency_spec(m[1] as int).len() as int);
    }
    assert forall|p: int| 0 <= p < POINTS implies #[trigger] mills_through(p, MILL_COUNT as int) == 2 by {
    }
    assert forall|i: int, j: usize|
        0 <= i < POINTS && #[trigger] adjacency_spec(i).contains(j) implies exists|k: int|
        0 <= k < MILL_COUNT && #[trigger] on_mill(k, i) && on_mill(k, j as int) by {
        assert(edges_in_mills(i, adjacency_spec(i).len() as int));
        lemma_edges_in_mills(i, adjacency_spec(i).len() as int);
        let r = choose|r: int| 0 <= r < adjacency_spec(i).len() && adjacency_spec(i)[r] == j;
        assert(shared_mill(i, adjacency_spec(i)[r] as int, 16));
        lemma_shared_mill(i, j as int, 16);
    }
}

/// The three points of mill line `k`.
pub fn mill(k: usize) -> (r: [usize; 3])
    requires
        k < MILL_COUNT,
    ensures
        r@ == mill_spec(k as int),
        r@[0] < POINTS && r@[1] < POINTS && r@[2] < POINTS,
{
    let r = if k == 0 {
        [0, 1, 2]
    } else if k == 1 {
        [3, 4, 5]
    } else if k == 2 {
        [6, 7, 8]
    } else if k == 3 {
        [9, 10, 11]
    } else if k == 4 {
        [12, 13, 14]
    } else if k == 5 {
        [15, 16, 17]
    } else if k == 6 {
        [18, 19, 20]
    } else if k == 7 {
        [21, 22, 23]
    } else if k == 8 {
        [0, 9, 21]
    } else if k == 9 {
        [3, 10, 18]
    } else if k == 10 {
        [6, 11, 15]
    } else if k == 11 {
        [1, 4, 7]
    } else if k == 12 {
        [16, 19, 22]
    } else if k == 13 {
        [8, 12, 17]
    } else if k == 14 {
        [5, 13, 20]
    } else {
        [2, 14, 23]
    };
    assert(r@ =~= mill_spec(k as int));
    r
}

/// Board seat. White opens the game.
#[derive(Clone, Copy, PartialEq, Eq, Hash, Debug, Structural)]
pub enum Side {
    White,
    Black,
}

pub open spec fn opposite_of(s: Side) -> Side {
    match s {
        Side::White => Side::Black,
        Side::Black => Side::White,
    }
}

pub open spec fn side_name(s: Side) -> Seq<char> {
    match s {
        Side::White => "white"@,
        Side::Black => "black"@,
    }
}

impl Side {
    pub fn opposite(self) -> (r: Side)
        ensures
            r == opposite_of(self),
    {
        match self {
            Side::White => Side::Black,
            Side::Black => Side::White,
        }
    }

    /// Lowercase name for UI text.
    pub fn name(self) -> (r: &'static str)
        ensures
            r@ == side_name(self),
    {
        match self {
            Side::White => "white",
            Side::Black => "black",
        }
    }
}

/// Coarse game stage; an outstanding capture rides on
/// [`Morris::removal_pending`] instead of its own phase.
#[derive(Clone, Copy, PartialEq, Eq, Debug, Structural)]
pub enum Phase {
    Place,
    Move,
    Over,
}

#[derive(Clone, Copy, PartialEq, Eq, Debug, Structural)]
pub enum Status {
    Ongoing,
    Won(Side),
}

/// One resolved board action, shared by the UI highlight layer and the AI.
#[derive(Clone, Copy, PartialEq, Eq, Debug, Structural)]
pub enum Action {
    Place(usize),
    Move(usize, usize),
    Remove(usize),
}

pub open spec fn side_idx(s: Side) -> int {
    match s {
        Side::White => 0,
        Side::Black => 1,
    }
}

/// Stones of `side` on the first `n` points.
pub open spec fn count_stones(board: Seq<Option<Side>>, side: Side, n: int) -> int
    decreases n,
{
    if n <= 0 {
        0
    } else {
        count_stones(board, side, n - 1) + if board[n - 1] == Some(side) {
            1int
        } else {
            0
        }
    }
}

/// Mill line `k` passes through `at` and `side` holds all three points.
pub open spec fn mill_of_at(board: Seq<Option<Side>>, k: int, at: int, side: Side) -> bool {
    let m = mill_spec(k);
    (m[0] == at || m[1] == at || m[2] == at) && board[m[0] as int] == Some(side) && board[m[1]
        as int] == Some(side) && board[m[2] as int] == Some(side)
}

/// A mill of `side` passes through `at`.
pub open spec fn is_mill_at_spec(board: Seq<Option<Side>>, at: int, side: Side) -> bool {
    exists|k: int| 0 <= k < MILL_COUNT && #[trigger] mill_of_at(board, k, at, side)
}

/// The stone on `at` sits in a mill of its owner.
pub open spec fn in_any_mill_spec(board: Seq<Option<Side>>, at: int) -> bool {
    board[at] matches Some(s) && is_mill_at_spec(board, at, s)
}

/// Points below `n` holding a stone of `foe` outside every mill, ascending.
pub open spec fn free_foes(board: Seq<Option<Side>>, foe: Side, n: int) -> Seq<usize>
    decreases n,
{
    if n <= 0 {
        Seq::empty()
    } else {
        free_foes(board, foe, n - 1) + if board[n - 1] == Some(foe) && !in_any_mill_spec(
            board,
            n - 1,
        ) {
            seq![(n - 1) as usize]
        } else {
            Seq::empty()
        }
    }
}

/// Points below `n` holding a stone of `foe`, ascending.
pub open spec fn all_foes(board: Seq<Option<Side>>, foe: Side, n: int) -> Seq<usize>
    decreases n,
{
    if n <= 0 {
        Seq::empty()
    } else {
        all_foes(board, foe, n - 1) + if board[n - 1] == Some(foe) {
            seq![(n - 1) as usize]
        } else {
            Seq::empty()
        }
    }
}

/// Stones the mover (`turn`) may take: the unprotected enemy stones, or
/// every enemy stone when all of them sit in mills.
pub open spec fn capturable_spec(board: Seq<Option<Side>>, turn: Side) -> Seq<usize> {
    let foe = opposite_of(turn);
    if free_foes(board, foe, 24).len() == 0 {
        all_foes(board, foe, 24)
    } else {
        free_foes(board, foe, 24)
    }
}

/// Empty points below `n`, ascending.
pub open spec fn empties_upto(board: Seq<Option<Side>>, n: int) -> Seq<usize>
    decreases n,
{
    if n <= 0 {
        Seq::empty()
    } else {
        empties_upto(board, n - 1) + if board[n - 1] is None {
            seq![(n - 1) as usize]
        } else {
            Seq::empty()
        }
    }
}

/// Entries of `s` that are empty points, in order.
pub open spec fn empty_among(board: Seq<Option<Side>>, s: Seq<usize>) -> Seq<usize>
    decreases s.len(),
{
    if s.len() == 0 {
        s
    } else {
        empty_among(board, s.drop_last()) + if board[s.last() as int] is None {
            seq![s.last()]
        } else {
            Seq::empty()
        }
    }
}

proof fn lemma_foes_listed(board: Seq<Option<Side>>, foe: Side, n: int)
    requires
        0 <= n <= 24,
    ensures
        forall|k: int|
            0 <= k < free_foes(board, foe, n).len() ==> #[trigger] free_foes(board, foe, n)[k] < n
                && board[free_foes(board, foe, n)[k] as int] == Some(foe),
        forall|k: int|
            0 <= k < all_foes(board, foe, n).len() ==> #[trigger] all_foes(board, foe, n)[k] < n
                && board[all_foes(board, foe, n)[k] as int] == Some(foe),
    decreases n,
{
    if n > 0 {
        lemma_foes_listed(board, foe, n - 1);
        let pf = free_foes(board, foe, n - 1);
        let cf = free_foes(board, foe, n);
        assert forall|k: int| 0 <= k < cf.len() implies #[trigger] cf[k] < n && board[cf[k] as int] == Some(foe) by {
            if k < pf.len() {
                assert(cf[k] == pf[k]);
            }
        }
        let pa = all_foes(board, foe, n - 1);
        let ca = all_foes(board, foe, n);
        assert forall|k: int| 0 <= k < ca.len() implies #[trigger] ca[k] < n && board[ca[k] as int] == Some(foe) by {
            if k < pa.len() {
                assert(ca[k] == pa[k]);
            }
        }
    }
}

/// `side` has something to do on `board` with these stone counts: an empty
/// point while it still places (or flies), else a stone with an empty
/// neighbour.
pub open spec fn can_act(to_place: Seq<u8>, on_board: Seq<u8>, board: Seq<Option<Side>>, side: Side) -> bool {
    if to_place[side_idx(side)] > 0 || (to_place[side_idx(side)] == 0 && on_board[side_idx(side)] == 3) {
        exists|i: int| 0 <= i < 24 && #[trigger] board[i] is None
    } else {
        exists|i: int|
            0 <= i < 24 && #[trigger] board[i] == Some(side) && exists|k: int|
                0 <= k < adjacency_spec(i).len() && board[#[trigger] adjacency_spec(i)[k] as int] is None
    }
}

/// Status once the move passes to `next` with these counts on `board`,
/// from `status`: a finished game stays finished; a side reduced below
/// three stones overall, or without any action, loses.
pub open spec fn status_after(
    status: Status,
    to_place: Seq<u8>,
    on_board: Seq<u8>,
    board: Seq<Option<Side>>,
    next: Side,
) -> Status {
    let n = side_idx(next);
    if !(status is Ongoing) {
        status
    } else if on_board[n] + to_place[n] < 3 || !can_act(to_place, on_board, board, next) {
        Status::Won(opposite_of(next))
    } else {
        Status::Ongoing
    }
}

/// Nine Men's Morris state machine.
#[derive(Clone, Copy)]
pub struct Morris {
    board: [Option<Side>; POINTS],
    turn: Side,
    /// Stones still waiting to be placed, indexed by [`Side`].
    to_place: [u8; 2],
    on_board: [u8; 2],
    /// True while the mover owes a capture off the opposing mill-exempt pool.
    pending_remove: bool,
    status: Status,
    last: Option<Action>,
}

fn idx(side: Side) -> (r: usize)
    ensures
        r == side_idx(side),
{
    match side {
        Side::White => 0,
        Side::Black => 1,
    }
}

impl Morris {
    pub closed spec fn board_spec(&self) -> Seq<Option<Side>> {
        self.board@
    }

    pub closed spec fn turn_spec(&self) -> Side {
        self.turn
    }

    /// Stones still to place, by [`side_idx`].
    pub closed spec fn to_place_spec(&self) -> Seq<u8> {
        self.to_place@
    }

    /// Stones on the board, by [`side_idx`].
    pub closed spec fn on_board_spec(&self) -> Seq<u8> {
        self.on_board@
    }

    pub closed spec fn pending_spec(&self) -> bool {
        self.pending_remove
    }

    pub closed spec fn status_spec(&self) -> Status {
        self.status
    }

    pub closed spec fn last_spec(&self) -> Option<Action> {
        self.last
    }

    /// The on-board tallies match the stones standing on the board.
    pub open spec fn wf(&self) -> bool {
        &&& self.board_spec().len() == POINTS
        &&& self.to_place_spec().len() == 2
        &&& self.on_board_spec().len() == 2
        &&& self.on_board_spec()[0] == count_stones(self.board_spec(), Side::White, 24)
        &&& self.on_board_spec()[1] == count_stones(self.board_spec(), Side::Black, 24)
    }

    pub open spec fn phase_spec(&self) -> Phase {
        match self.status_spec() {
            Status::Won(_) => Phase::Over,
            Status::Ongoing => if self.to_place_spec()[0] > 0 || self.to_place_spec()[1] > 0 {
                Phase::Place
            } else {
                Phase::Move
            },
        }
    }

    pub open spec fn flying_spec(&self, side: Side) -> bool {
        self.to_place_spec()[side_idx(side)] == 0 && self.on_board_spec()[side_idx(side)] == 3
    }

    pub open spec fn removal_pending_spec(&self) -> bool {
        self.status_spec() is Ongoing && self.pending_spec()
    }

    /// `side` has a legal action on `board` given these stone counts: any
    /// empty point while placing or flying, else a slide to an empty
    /// neighbour.
    pub open spec fn has_any_action_spec(&self, board: Seq<Option<Side>>, side: Side) -> bool {
        can_act(self.to_place_spec(), self.on_board_spec(), board, side)
    }

    /// The mover may put a stone on `i`.
    pub open spec fn can_place(&self, i: int) -> bool {
        &&& !self.removal_pending_spec()
        &&& self.phase_spec() == Phase::Place
        &&& 0 <= i < POINTS
        &&& self.board_spec()[i] is None
        &&& self.to_place_spec()[side_idx(self.turn_spec())] > 0
    }

    /// The mover may slide (or fly) its stone from `from` to `to`.
    pub open spec fn can_move(&self, from: int, to: int) -> bool {
        &&& !self.removal_pending_spec()
        &&& self.phase_spec() == Phase::Move
        &&& 0 <= from < POINTS
        &&& 0 <= to < POINTS
        &&& from != to
        &&& self.board_spec()[from] == Some(self.turn_spec())
        &&& self.board_spec()[to] is None
        &&& (self.flying_spec(self.turn_spec()) || adjacency_spec(from).contains(to as usize))
    }

    /// The mover may take the opposing stone on `i`.
    pub open spec fn can_remove(&self, i: int) -> bool {
        &&& self.removal_pending_spec()
        &&& 0 <= i < POINTS
        &&& self.board_spec()[i] == Some(opposite_of(self.turn_spec()))
        &&& capturable_spec(self.board_spec(), self.turn_spec()).contains(i as usize)
    }

    /// Every stone listed as capturable is an enemy stone on the board, so
    /// taking it is allowed while a capture is owed.
    pub proof fn lemma_capturable_foes(&self)
        ensures
            self.removal_pending_spec() ==> forall|k: int|
                0 <= k < capturable_spec(self.board_spec(), self.turn_spec()).len() ==> self.can_remove(
                    #[trigger] capturable_spec(self.board_spec(), self.turn_spec())[k] as int,
                ),
    {
        let foe = opposite_of(self.turn_spec());
        lemma_foes_listed(self.board_spec(), foe, 24);
        let cap = capturable_spec(self.board_spec(), self.turn_spec());
        assert forall|k: int| 0 <= k < cap.len() implies #[trigger] cap.contains(cap[k]) by {}
    }

    /// Legal destinations of the stone on `i` (see
    /// [`Morris::legal_moves_from`]).
    pub open spec fn legal_moves_spec(&self, i: int) -> Seq<usize> {
        if self.removal_pending_spec() || self.phase_spec() != Phase::Move || i >= 24
            || self.board_spec()[i] != Some(self.turn_spec()) {
            Seq::empty()
        } else if self.flying_spec(self.turn_spec()) {
            empties_upto(self.board_spec(), 24)
        } else {
            empty_among(self.board_spec(), adjacency_spec(i))
        }
    }

    /// Status once the move passes to `next` with these counts on `board`:
    /// a side reduced below three stones overall, or without any action,
    /// loses.
    pub open spec fn refreshed(&self, board: Seq<Option<Side>>, next: Side) -> Status {
        status_after(self.status_spec(), self.to_place_spec(), self.on_board_spec(), board, next)
    }

    /// `g` is this game after the mover puts a stone on `i`.
    pub open spec fn placed_at(&self, i: usize, g: Morris) -> bool {
        let side = self.turn_spec();
        let s = side_idx(side);
        let board = self.board_spec().update(i as int, Some(side));
        &&& g.board_spec() == board
        &&& g.to_place_spec() == self.to_place_spec().update(
            s,
            (self.to_place_spec()[s] - 1) as u8,
        )
        &&& g.on_board_spec() == self.on_board_spec().update(
            s,
            (self.on_board_spec()[s] + 1) as u8,
        )
        &&& g.last_spec() == Some(Action::Place(i))
        &&& Self::after_action_post(
            board,
            side,
            i as int,
            self.status_spec(),
            g,
        )
    }

    /// `g` is this game after the mover slides (or flies) its stone from
    /// `from` to `to`.
    pub open spec fn slid(&self, from: usize, to: usize, g: Morris) -> bool {
        let side = self.turn_spec();
        let board = self.board_spec().update(from as int, None).update(
            to as int,
            Some(side),
        );
        &&& g.board_spec() == board
        &&& g.to_place_spec() == self.to_place_spec()
        &&& g.on_board_spec() == self.on_board_spec()
        &&& g.last_spec() == Some(Action::Move(from, to))
        &&& Self::after_action_post(
            board,
            side,
            to as int,
            self.status_spec(),
            g,
        )
    }

    /// `g` is this game after the mover takes the opposing stone on `i`.
    pub open spec fn took(&self, i: usize, g: Morris) -> bool {
        let side = self.turn_spec();
        let foe = side_idx(opposite_of(side));
        let board = self.board_spec().update(i as int, None);
        &&& g.board_spec() == board
        &&& g.to_place_spec() == self.to_place_spec()
        &&& g.on_board_spec() == self.on_board_spec().update(
            foe,
            (self.on_board_spec()[foe] - 1) as u8,
        )
        &&& !g.pending_spec()
        &&& g.last_spec() == Some(Action::Remove(i))
        &&& g.turn_spec() == opposite_of(side)
        &&& g.status_spec() == status_after(
            self.status_spec(),
            g.to_place_spec(),
            g.on_board_spec(),
            board,
            opposite_of(side),
        )
    }

    /// A capture has exactly one outcome.
    pub proof fn lemma_took_unique(&self, i: usize, a: Morris, b: Morris)
        requires
            self.took(i, a),
            self.took(i, b),
        ensures
            a == b,
    {
        assert(a.board =~= b.board);
        assert(a.to_place =~= b.to_place);
        assert(a.on_board =~= b.on_board);
    }

    /// Placing or sliding has exactly one outcome.
    pub proof fn lemma_result_unique(&self, action: Action, a: Morris, b: Morris)
        requires
            action_result(*self, action, a),
            action_result(*self, action, b),
        ensures
            a == b,
    {
        assert(a.board =~= b.board);
        assert(a.to_place =~= b.to_place);
        assert(a.on_board =~= b.on_board);
    }

    /// The opening position: an empty board, nine stones to place each,
    /// White to move.
    pub open spec fn fresh(&self) -> bool {
        &&& self.wf()
        &&& forall|i: int| 0 <= i < POINTS ==> #[trigger] self.board_spec()[i] is None
        &&& self.turn_spec() == Side::White
        &&& self.to_place_spec() == seq![9u8, 9u8]
        &&& self.on_board_spec() == seq![0u8, 0u8]
        &&& !self.pending_spec()
        &&& self.status_spec() == Status::Ongoing
        &&& self.last_spec() is None
    }

    pub fn new() -> (g: Self)
        ensures
            g.wf(),
            forall|i: int| 0 <= i < POINTS ==> #[trigger] g.board_spec()[i] is None,
            g.turn_spec() == Side::White,
            g.to_place_spec() == seq![9u8, 9u8],
            g.on_board_spec() == seq![0u8, 0u8],
            !g.pending_spec(),
            g.status_spec() == Status::Ongoing,
            g.last_spec() is None,
    {
        let g = Morris {
            board: [None; POINTS],
            turn: Side::White,
            to_place: [9; 2],
            on_board: [0; 2],
            pending_remove: false,
            status: Status::Ongoing,
            last: None,
        };
        proof {
            lemma_count_zero(g.board@, Side::White, 24);
            lemma_count_zero(g.board@, Side::Black, 24);
            assert(g.to_place@ =~= seq![9u8, 9u8]);
            assert(g.on_board@ =~= seq![0u8, 0u8]);
        }
        g
    }

    /// Occupant of `i`, or `None` when empty or out of range.
    pub fn point(&self, i: usize) -> (r: Option<Side>)
        ensures
            r == if i < POINTS {
                self.board_spec()[i as int]
            } else {
                None
            },
    {
        if i < POINTS {
            self.board[i]
        } else {
            None
        }
    }

    pub fn phase(&self) -> (r: Phase)
        requires
            self.wf(),
        ensures
            r == self.phase_spec(),
    {
        match self.status {
            Status::Won(_) => Phase::Over,
            Status::Ongoing => if self.to_place[0] > 0 || self.to_place[1] > 0 {
                Phase::Place
            } else {
                Phase::Move
            },
        }
    }

    pub fn turn(&self) -> (r: Side)
        ensures
            r == self.turn_spec(),
    {
        self.turn
    }

    pub fn status(&self) -> (r: Status)
        ensures
            r == self.status_spec(),
    {
        self.status
    }

    /// Stones `side` has yet to place.
    pub fn stones_left(&self, side: Side) -> (r: u8)
        requires
            self.wf(),
        ensures
            r == self.to_place_spec()[side_idx(side)],
    {
        self.to_place[idx(side)]
    }

    /// Stones `side` currently has standing on the board.
    pub fn on_board(&self, side: Side) -> (r: u8)
        requires
            self.wf(),
        ensures
            r == self.on_board_spec()[side_idx(side)],
    {
        self.on_board[idx(side)]
    }

    /// True while the side to move must capture before anything else.
    pub fn removal_pending(&self) -> (r: bool)
        ensures
            r == self.removal_pending_spec(),
    {
        match self.status {
            Status::Ongoing => self.pending_remove,
            _ => false,
        }
    }

    pub fn last_action(&self) -> (r: Option<Action>)
        ensures
            r == self.last_spec(),
    {
        self.last
    }

    /// True when `side` is down to three placed stones and may fly.
    pub fn flying(&self, side: Side) -> (r: bool)
        requires
            self.wf(),
        ensures
            r == self.flying_spec(side),
    {
        self.to_place[idx(side)] == 0 && self.on_board[idx(side)] == 3
    }

    /// True when `side` has at least one legal action right now.
    fn has_any_action(&self, side: Side) -> (r: bool)
        requires
            self.wf(),
        ensures
            r == self.has_any_action_spec(self.board@, side),
    {
        if self.to_place[idx(side)] > 0 || self.flying(side) {
            let mut i: usize = 0;
            while i < POINTS
                invariant
                    self.wf(),
                    0 <= i <= POINTS,
                    self.to_place@[side_idx(side)] > 0 || (self.to_place@[side_idx(side)] == 0
                        && self.on_board@[side_idx(side)] == 3),
                    forall|j: int| 0 <= j < i ==> #[trigger] self.board@[j] is Some,
                decreases POINTS - i,
            {
                if self.board[i].is_none() {
                    assert(self.board@[i as int] is None);
                    return true;
                }
                i += 1;
            }
            return false;
        }
        let mut i: usize = 0;
        while i < POINTS
            invariant
                self.wf(),
                0 <= i <= POINTS,
                !(self.to_place@[side_idx(side)] > 0 || (self.to_place@[side_idx(side)] == 0
                    && self.on_board@[side_idx(side)] == 3)),
                forall|j: int|
                    0 <= j < i ==> !(#[trigger] self.board@[j] == Some(side) && exists|k: int|
                        0 <= k < adjacency_spec(j).len() && self.board@[#[trigger] adjacency_spec(
                            j,
                        )[k] as int] is None),
            decreases POINTS - i,
        {
            if self.board[i] == Some(side) {
                let adj = adjacency(i);
                let mut k: usize = 0;
                while k < adj.len()
                    invariant
                        self.wf(),
                        0 <= i < POINTS,
                        adj@ == adjacency_spec(i as int),
                        self.board@[i as int] == Some(side),
                        !(self.to_place@[side_idx(side)] > 0 || (self.to_place@[side_idx(side)] == 0
                            && self.on_board@[side_idx(side)] == 3)),
                        forall|q: int| 0 <= q < adj@.len() ==> #[trigger] adj@[q] < POINTS,
                        0 <= k <= adj@.len(),
                        forall|q: int|
                            0 <= q < k ==> self.board@[#[trigger] adjacency_spec(i as int)[q] as int]
                                is Some,
                    decreases adj@.len() - k,
                {
                    if self.board[adj[k]].is_none() {
                        assert(self.board@[adjacency_spec(i as int)[k as int] as int] is None);
                        assert(self.board@[i as int] == Some(side));
                        return true;
                    }
                    k += 1;
                }
            }
            i += 1;
        }
        false
    }

    /// True when a mill of `side` passes through `at`.
    fn is_mill_at(&self, at: usize, side: Side) -> (r: bool)
        requires
            self.wf(),
        ensures
            r == is_mill_at_spec(self.board@, at as int, side),
    {
        let mut k: usize = 0;
        while k < MILL_COUNT
            invariant
                self.wf(),
                0 <= k <= MILL_COUNT,
                forall|j: int| 0 <= j < k ==> !#[trigger] mill_of_at(self.board@, j, at as int, side),
            decreases MILL_COUNT - k,
        {
            let m = mill(k);
            if (m[0] == at || m[1] == at || m[2] == at) && self.board[m[0]] == Some(side)
                && self.board[m[1]] == Some(side) && self.board[m[2]] == Some(side) {
                assert(mill_of_at(self.board@, k as int, at as int, side));
                return true;
            }
            k += 1;
        }
        false
    }

    fn in_any_mill(&self, at: usize) -> (r: bool)
        requires
            self.wf(),
            at < POINTS,
        ensures
            r == in_any_mill_spec(self.board@, at as int),
    {
        match self.board[at] {
            Some(s) => self.is_mill_at(at, s),
            None => false,
        }
    }

    /// Enemy stones the mover may take: unprotected ones, or every stone when
    /// the whole opposing force sits inside mills.
    pub fn removable_points(&self) -> (r: Vec<usize>)
        requires
            self.wf(),
        ensures
            r@ == if self.removal_pending_spec() {
                capturable_spec(self.board_spec(), self.turn_spec())
            } else {
                Seq::empty()
            },
    {
        if self.removal_pending() {
            self.capturable_points()
        } else {
            Vec::new()
        }
    }

    /// Capture candidates ignoring the pending flag, so the mill check after
    /// an action can consult the pool before arming it.
    fn capturable_points(&self) -> (r: Vec<usize>)
        requires
            self.wf(),
        ensures
            r@ == capturable_spec(self.board@, self.turn),
    {
        let foe = self.turn.opposite();
        let mut free: Vec<usize> = Vec::new();
        let mut i: usize = 0;
        while i < POINTS
            invariant
                self.wf(),
                0 <= i <= POINTS,
                foe == opposite_of(self.turn),
                free@ == free_foes(self.board@, foe, i as int),
            decreases POINTS - i,
        {
            if self.board[i] == Some(foe) && !self.in_any_mill(i) {
                free.push(i);
            }
            i += 1;
        }
        if free.len() > 0 {
            return free;
        }
        let mut all: Vec<usize> = Vec::new();
        let mut j: usize = 0;
        while j < POINTS
            invariant
                self.wf(),
                0 <= j <= POINTS,
                foe == opposite_of(self.turn),
                free_foes(self.board@, foe, 24).len() == 0,
                all@ == all_foes(self.board@, foe, j as int),
            decreases POINTS - j,
        {
            if self.board[j] == Some(foe) {
                all.push(j);
            }
            j += 1;
        }
        all
    }

    /// Empty destinations from `i` for the side to move; respects adjacency
    /// unless the stone may fly. Empty unless `i` holds a movable own stone.
    pub fn legal_moves_from(&self, i: usize) -> (out: Vec<usize>)
        requires
            self.wf(),
        ensures
            out@ == self.legal_moves_spec(i as int),
    {
        let mut out: Vec<usize> = Vec::new();
        if self.removal_pending() {
            return out;
        }
        match self.phase() {
            Phase::Move => {},
            _ => return out,
        }
        if i >= POINTS {
            return out;
        }
        if self.board[i] != Some(self.turn) {
            return out;
        }
        if self.flying(self.turn) {
            let mut j: usize = 0;
            while j < POINTS
                invariant
                    self.wf(),
                    0 <= j <= POINTS,
                    out@ == empties_upto(self.board@, j as int),
                decreases POINTS - j,
            {
                if self.board[j].is_none() {
                    out.push(j);
                }
                j += 1;
            }
        } else {
            let adj = adjacency(i);
            let mut k: usize = 0;
            while k < adj.len()
                invariant
                    self.wf(),
                    adj@ == adjacency_spec(i as int),
                    forall|q: int| 0 <= q < adj@.len() ==> #[trigger] adj@[q] < POINTS,
                    0 <= k <= adj@.len(),
                    out@ == empty_among(self.board@, adj@.take(k as int)),
                decreases adj@.len() - k,
            {
                if self.board[adj[k]].is_none() {
                    out.push(adj[k]);
                }
                assert(adj@.take(k + 1).drop_last() =~= adj@.take(k as int));
                k += 1;
            }
            assert(adj@.take(adj@.len() as int) =~= adj@);
        }
        out
    }

    /// Put a stone on empty `i` for the mover; a new mill arms the capture.
    pub fn place(&mut self, i: usize) -> (ok: bool)
        requires
            old(self).wf(),
        ensures
            final(self).wf(),
            ok == old(self).can_place(i as int),
            !ok ==> *final(self) == *old(self),
            ok ==> old(self).placed_at(i, *final(self)),
    {
        if self.removal_pending() {
            return false;
        }
        match self.phase() {
            Phase::Place => {},
            _ => return false,
        }
        if i >= POINTS || self.board[i].is_some() {
            return false;
        }
        let side = self.turn;
        if self.to_place[idx(side)] == 0 {
            return false;
        }
        let ghost old_board = self.board@;
        self.board[i] = Some(side);
        proof {
            lemma_count_update(old_board, side, 24, i as int, side);
            lemma_count_update(old_board, opposite_of(side), 24, i as int, side);
            lemma_count_bound(old_board, side, 24);
        }
        self.to_place[idx(side)] = self.to_place[idx(side)] - 1;
        self.on_board[idx(side)] = self.on_board[idx(side)] + 1;
        self.last = Some(Action::Place(i));
        self.after_action(i);
        true
    }

    /// Slide `from`->`to` along a line (anywhere when flying); a new mill at
    /// `to` arms the capture.
    pub fn move_stone(&mut self, from: usize, to: usize) -> (ok: bool)
        requires
            old(self).wf(),
        ensures
            final(self).wf(),
            ok == old(self).can_move(from as int, to as int),
            !ok ==> *final(self) == *old(self),
            ok ==> old(self).slid(from, to, *final(self)),
    {
        if self.removal_pending() {
            return false;
        }
        match self.phase() {
            Phase::Move => {},
            _ => return false,
        }
        if from >= POINTS || to >= POINTS || from == to {
            return false;
        }
        if self.board[from] != Some(self.turn) || self.board[to].is_some() {
            return false;
        }
        if !self.flying(self.turn) && !contains(&adjacency(from), to) {
            return false;
        }
        let side = self.turn;
        let ghost b0 = self.board@;
        self.board[from] = None;
        let ghost b1 = self.board@;
        self.board[to] = Some(side);
        proof {
            lemma_count_remove(b0, side, 24, from as int);
            lemma_count_update(b1, side, 24, to as int, side);
            lemma_count_remove(b0, opposite_of(side), 24, from as int);
            lemma_count_update(b1, opposite_of(side), 24, to as int, side);
        }
        self.last = Some(Action::Move(from, to));
        self.after_action(to);
        true
    }

    /// Take the opposing stone on `i`, honouring the mill-exemption rule.
    pub fn remove(&mut self, i: usize) -> (ok: bool)
        requires
            old(self).wf(),
        ensures
            final(self).wf(),
            ok == old(self).can_remove(i as int),
            !ok ==> *final(self) == *old(self),
            ok ==> old(self).took(i, *final(self)),
    {
        if !self.removal_pending() {
            return false;
        }
        if i >= POINTS || self.board[i] != Some(self.turn.opposite()) {
            return false;
        }
        if !contains(&self.removable_points(), i) {
            return false;
        }
        let foe = self.turn.opposite();
        let ghost b0 = self.board@;
        proof {
            lemma_count_positive(b0, foe, 24, i as int);
            lemma_count_remove(b0, foe, 24, i as int);
            lemma_count_remove(b0, opposite_of(foe), 24, i as int);
        }
        self.on_board[idx(foe)] = self.on_board[idx(foe)] - 1;
        self.board[i] = None;
        self.pending_remove = false;
        self.last = Some(Action::Remove(i));
        self.pass_turn();
        true
    }

    /// What the shared tail of `place`/`move_stone` leaves behind on `board`
    /// after `side` acted on `dest`: a fresh mill with something to take arms
    /// the capture and keeps the turn; otherwise the turn passes and the
    /// status is refreshed for the next side.
    pub open spec fn after_action_post(
        board: Seq<Option<Side>>,
        side: Side,
        dest: int,
        status: Status,
        g: Morris,
    ) -> bool {
        if is_mill_at_spec(board, dest, side) && capturable_spec(board, side).len() > 0 {
            &&& g.pending_spec()
            &&& g.turn_spec() == side
            &&& g.status_spec() == status
        } else {
            &&& g.pending_spec() == false
            &&& g.turn_spec() == opposite_of(side)
            &&& g.status_spec() == status_after(status, g.to_place_spec(), g.on_board_spec(), board, opposite_of(side))
        }
    }

    /// Shared tail of `place`/`move_stone`: arm the capture on a fresh mill,
    /// otherwise hand the turn over.
    fn after_action(&mut self, dest: usize)
        requires
            old(self).wf(),
            !old(self).pending_remove,
        ensures
            final(self).wf(),
            final(self).board@ == old(self).board@,
            final(self).to_place@ == old(self).to_place@,
            final(self).on_board@ == old(self).on_board@,
            final(self).last == old(self).last,
            Self::after_action_post(old(self).board@, old(self).turn, dest as int, old(self).status, *final(self)),
    {
        if self.is_mill_at(dest, self.turn) && self.capturable_points().len() > 0 {
            self.pending_remove = true;
        } else {
            self.pass_turn();
        }
    }

    fn pass_turn(&mut self)
        requires
            old(self).wf(),
        ensures
            final(self).wf(),
            final(self).board@ == old(self).board@,
            final(self).to_place@ == old(self).to_place@,
            final(self).on_board@ == old(self).on_board@,
            final(self).last == old(self).last,
            final(self).pending_remove == old(self).pending_remove,
            final(self).turn == opposite_of(old(self).turn),
            final(self).status == old(self).refreshed(old(self).board@, opposite_of(old(self).turn)),
    {
        self.turn = self.turn.opposite();
        self.refresh_status();
    }

    /// The side to move loses when reduced under three stones overall or
    /// completely blocked; the previous mover takes the win.
    fn refresh_status(&mut self)
        requires
            old(self).wf(),
        ensures
            final(self).wf(),
            final(self).board@ == old(self).board@,
            final(self).to_place@ == old(self).to_place@,
            final(self).on_board@ == old(self).on_board@,
            final(self).last == old(self).last,
            final(self).pending_remove == old(self).pending_remove,
            final(self).turn == old(self).turn,
            final(self).status == old(self).refreshed(old(self).board@, old(self).turn),
    {
        match self.status {
            Status::Ongoing => {},
            _ => return ,
        }
        let winner = self.turn.opposite();
        let now = idx(self.turn);
        let total = self.on_board[now] as u16 + self.to_place[now] as u16;
        if total < 3 || !self.has_any_action(self.turn) {
            self.status = Status::Won(winner);
        }
    }

    /// Raw position assembly for staging rules and AI fixtures: listed stones
    /// (a later entry for the same point wins), stones still to place, the
    /// side to move and whether it owes a capture; game running, no history.
    pub fn set_position(
        pieces: &[(usize, Side)],
        to_place: [u8; 2],
        turn: Side,
        pending_remove: bool,
    ) -> (g: Self)
        requires
            forall|i: int| 0 <= i < pieces@.len() ==> #[trigger] pieces@[i].0 < POINTS,
        ensures
            g.wf(),
            g.board_spec() == place_all(pieces@, pieces@.len() as int),
            g.to_place_spec() == to_place@,
            g.turn_spec() == turn,
            g.pending_spec() == pending_remove,
            g.status_spec() == Status::Ongoing,
            g.last_spec() is None,
    {
        let mut board: [Option<Side>; POINTS] = [None; POINTS];
        let mut k: usize = 0;
        assert(board@ =~= place_all(pieces@, 0));
        while k < pieces.len()
            invariant
                0 <= k <= pieces@.len(),
                forall|i: int| 0 <= i < pieces@.len() ==> #[trigger] pieces@[i].0 < POINTS,
                board@ == place_all(pieces@, k as int),
            decreases pieces@.len() - k,
        {
            let (i, side) = pieces[k];
            board[i] = Some(side);
            k += 1;
        }
        let mut white: u8 = 0;
        let mut black: u8 = 0;
        let mut p: usize = 0;
        while p < POINTS
            invariant
                0 <= p <= POINTS,
                white == count_stones(board@, Side::White, p as int),
                black == count_stones(board@, Side::Black, p as int),
                white + black <= p,
            decreases POINTS - p,
        {
            match board[p] {
                Some(Side::White) => white += 1,
                Some(Side::Black) => black += 1,
                None => {},
            }
            p += 1;
        }
        Morris {
            board,
            turn,
            to_place,
            on_board: [white, black],
            pending_remove,
            status: Status::Ongoing,
            last: None,
        }
    }
}

/// A stone put on `i` as [`Morris::place`] does, or nothing when refused.
pub open spec fn place_result(g: Morris, i: int, new: Morris) -> bool {
    if g.can_place(i) {
        g.placed_at(i as usize, new)
    } else {
        new == g
    }
}

/// A stone moved as [`Morris::move_stone`] does, or nothing when refused.
pub open spec fn move_result(g: Morris, from: int, to: int, new: Morris) -> bool {
    if g.can_move(from, to) {
        g.slid(from as usize, to as usize, new)
    } else {
        new == g
    }
}

/// A stone taken as [`Morris::remove`] does, or nothing when refused.
pub open spec fn remove_result(g: Morris, i: int, new: Morris) -> bool {
    if g.can_remove(i) {
        g.took(i as usize, new)
    } else {
        new == g
    }
}

/// What the engine does with a place or move the computer picked.
pub open spec fn action_result(g: Morris, a: Action, new: Morris) -> bool {
    match a {
        Action::Place(i) => place_result(g, i as int, new),
        Action::Move(from, to) => move_result(g, from as int, to as int, new),
        Action::Remove(_) => new == g,
    }
}

/// An empty board with the first `k` entries of `pieces` placed in order.
pub open spec fn place_all(pieces: Seq<(usize, Side)>, k: int) -> Seq<Option<Side>>
    decreases k,
{
    if k <= 0 {
        Seq::new(24, |i: int| None)
    } else {
        let p = pieces[k - 1];
        place_all(pieces, k - 1).update(p.0 as int, Some(p.1))
    }
}

fn contains(v: &Vec<usize>, x: usize) -> (b: bool)
    ensures
        b == v@.contains(x),
{
    let mut i: usize = 0;
    while i < v.len()
        invariant
            0 <= i <= v@.len(),
            forall|j: int| 0 <= j < i ==> v@[j] != x,
        decreases v@.len() - i,
    {
        if v[i] == x {
            return true;
        }
        i += 1;
    }
    false
}

proof fn lemma_count_zero(board: Seq<Option<Side>>, side: Side, n: int)
    requires
        0 <= n <= board.len(),
        forall|i: int| 0 <= i < board.len() ==> #[trigger] board[i] is None,
    ensures
        count_stones(board, side, n) == 0,
    decreases n,
{
    if n > 0 {
        lemma_count_zero(board, side, n - 1);
    }
}

proof fn lemma_count_bound(board: Seq<Option<Side>>, side: Side, n: int)
    requires
        0 <= n,
    ensures
        0 <= count_stones(board, side, n) <= n,
    decreases n,
{
    if n > 0 {
        lemma_count_bound(board, side, n - 1);
    }
}

/// Putting a `side` stone on an empty point.
proof fn lemma_count_update(board: Seq<Option<Side>>, s: Side, n: int, i: int, side: Side)
    requires
        0 <= n <= board.len(),
        0 <= i < board.len(),
        board[i] is None,
    ensures
        count_stones(board.update(i, Some(side)), s, n) == count_stones(board, s, n) + if i < n
            && side == s {
            1int
        } else {
            0
        },
    decreases n,
{
    if n > 0 {
        lemma_count_update(board, s, n - 1, i, side);
    }
}

/// Emptying an occupied point.
proof fn lemma_count_remove(board: Seq<Option<Side>>, s: Side, n: int, i: int)
    requires
        0 <= n <= board.len(),
        0 <= i < board.len(),
        board[i] is Some,
    ensures
        count_stones(board.update(i, None), s, n) == count_stones(board, s, n) - if i < n
            && board[i] == Some(s) {
            1int
        } else {
            0
        },
    decreases n,
{
    if n > 0 {
        lemma_count_remove(board, s, n - 1, i);
    }
}

proof fn lemma_count_positive(board: Seq<Option<Side>>, s: Side, n: int, i: int)
    requires
        0 <= i < n <= board.len(),
        board[i] == Some(s),
    ensures
        count_stones(board, s, n) >= 1,
    decreases n,
{
    if i < n - 1 {
        lemma_count_positive(board, s, n - 1, i);
    } else {
        lemma_count_bound(board, s, n - 1);
    }
}

} // verus!

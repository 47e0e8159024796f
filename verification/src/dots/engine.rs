//! Pure Dots & Boxes: claim edges on a dot lattice, completing a box grants
//! another turn, most boxes wins. Default 4×4 boxes from a 5×5 lattice.

use vstd::prelude::*;

verus! {

pub const BOXES: usize = 4;

/// Horizontal edges: (BOXES+1) rows × BOXES columns = 20, ids `h_id(r,c)`.
/// Vertical edges: BOXES rows × (BOXES+1) columns = 20, ids after horizontals.
pub const EDGES: usize = 40;

#[derive(Clone, Copy, PartialEq, Eq, Debug, Structural)]
pub enum Side {
    White,
    Black,
}

pub open spec fn opposite_of(s: Side) -> Side {
    match s {
        Side::White => Side::Black,
        Side::Black => Side::White,
    }
}

impl Side {
    pub fn opposite(self) -> (r: Self)
        ensures
            r == opposite_of(self),
    {
        match self {
            Side::White => Side::Black,
            Side::Black => Side::White,
        }
    }

    pub fn symbol(self) -> (r: char)
        ensures
            r == '\u{25cf}',
    {
        '\u{25cf}'
    }
}

#[derive(Clone, Copy, PartialEq, Eq, Debug, Structural)]
pub enum Status {
    Ongoing,
    Won(Side),
    Draw,
}

impl Status {
    pub fn is_ongoing(self) -> (r: bool)
        ensures
            r == (self is Ongoing),
    {
        match self {
            Status::Ongoing => true,
            _ => false,
        }
    }
}

pub open spec fn h_id_spec(row: int, col: int) -> int {
    row * 4 + col
}

pub open spec fn v_id_spec(row: int, col: int) -> int {
    20 + row * 5 + col
}

/// Id of the horizontal edge at lattice row `row`, column `col`.
pub fn h_id(row: usize, col: usize) -> (r: usize)
    requires
        h_id_spec(row as int, col as int) <= usize::MAX,
    ensures
        r == h_id_spec(row as int, col as int),
{
    row * BOXES + col
}

/// Id of the vertical edge at lattice row `row`, column `col`.
pub fn v_id(row: usize, col: usize) -> (r: usize)
    requires
        v_id_spec(row as int, col as int) <= usize::MAX,
    ensures
        r == v_id_spec(row as int, col as int),
{
    BOXES * (BOXES + 1) + row * (BOXES + 1) + col
}

/// `(is_vertical, row, col)` for an edge id.
pub open spec fn decompose_spec(id: int) -> (bool, int, int) {
    if id < 20 {
        (false, id / 4, id % 4)
    } else {
        (true, (id - 20) / 5, (id - 20) % 5)
    }
}

/// `(is_vertical, row, col)` for an edge id.
pub fn decompose(id: usize) -> (r: (bool, usize, usize))
    ensures
        (r.0, r.1 as int, r.2 as int) == decompose_spec(id as int),
{
    if id < BOXES * (BOXES + 1) {
        (false, id / BOXES, id % BOXES)
    } else {
        let k = id - BOXES * (BOXES + 1);
        (true, k / (BOXES + 1), k % (BOXES + 1))
    }
}

/// The four edge ids bounding box `(row, col)`: top, bottom, left, right.
pub open spec fn box_edges_spec(row: int, col: int) -> Seq<int> {
    seq![h_id_spec(row, col), h_id_spec(row + 1, col), v_id_spec(row, col), v_id_spec(row, col + 1)]
}

/// The four edge ids bounding box `(row, col)`.
pub fn box_edges(row: usize, col: usize) -> (r: [usize; 4])
    requires
        h_id_spec(row as int + 1, col as int) <= usize::MAX,
        v_id_spec(row as int, col as int + 1) <= usize::MAX,
    ensures
        r@.len() == 4,
        forall|k: int| 0 <= k < 4 ==> r@[k] == #[trigger] box_edges_spec(row as int, col as int)[k],
{
    [h_id(row, col), h_id(row + 1, col), v_id(row, col), v_id(row, col + 1)]
}

/// Box `(row, col)` has all four edges claimed.
pub open spec fn box_complete(edges: Seq<Option<Side>>, row: int, col: int) -> bool {
    forall|k: int| 0 <= k < 4 ==> edges[#[trigger] box_edges_spec(row, col)[k]] is Some
}

/// The up to two boxes touching edge `e`, in scan order.
pub open spec fn adjacent_boxes(e: int) -> Seq<(int, int)> {
    let (vert, row, col) = decompose_spec(e);
    if vert {
        (if col > 0 {
            seq![(row, col - 1)]
        } else {
            Seq::empty()
        }) + if col < BOXES {
            seq![(row, col)]
        } else {
            Seq::empty()
        }
    } else {
        (if row > 0 {
            seq![(row - 1, col)]
        } else {
            Seq::empty()
        }) + if row < BOXES {
            seq![(row, col)]
        } else {
            Seq::empty()
        }
    }
}

/// Boxes of `adj` (in order) that are complete in `edges` and unowned in
/// `boxes`.
pub open spec fn newly_completed(
    edges: Seq<Option<Side>>,
    boxes: Seq<Option<Side>>,
    adj: Seq<(int, int)>,
) -> Seq<(usize, usize)>
    decreases adj.len(),
{
    if adj.len() == 0 {
        Seq::empty()
    } else {
        let b = adj.last();
        newly_completed(edges, boxes, adj.drop_last()) + if box_complete(edges, b.0, b.1)
            && boxes[b.0 * 4 + b.1] is None {
            seq![(b.0 as usize, b.1 as usize)]
        } else {
            Seq::empty()
        }
    }
}

/// `boxes` with every box of `done` owned by `mover`.
pub open spec fn mark(boxes: Seq<Option<Side>>, done: Seq<(usize, usize)>, mover: Side) -> Seq<
    Option<Side>,
>
    decreases done.len(),
{
    if done.len() == 0 {
        boxes
    } else {
        let b = done.last();
        mark(boxes, done.drop_last(), mover).update(b.0 * 4 + b.1, Some(mover))
    }
}

/// Unclaimed edge ids below `n`, ascending.
pub open spec fn open_upto(edges: Seq<Option<Side>>, n: int) -> Seq<usize>
    decreases n,
{
    if n <= 0 {
        Seq::empty()
    } else {
        open_upto(edges, n - 1) + if edges[n - 1] is None {
            seq![(n - 1) as usize]
        } else {
            Seq::empty()
        }
    }
}

pub open spec fn side_idx(s: Side) -> int {
    match s {
        Side::White => 0,
        Side::Black => 1,
    }
}

#[derive(Clone)]
pub struct Dots {
    edges: [Option<Side>; EDGES],
    /// Box owners indexed `row * BOXES + col`.
    boxes: [Option<Side>; 16],
    turn: Side,
    status: Status,
    last_edge: Option<usize>,
    completed_last: Vec<(usize, usize)>,
    scores: [usize; 2],
}

fn side_index(side: Side) -> (r: usize)
    ensures
        r == side_idx(side),
{
    match side {
        Side::White => 0,
        Side::Black => 1,
    }
}

impl Dots {
    pub closed spec fn edges_spec(&self) -> Seq<Option<Side>> {
        self.edges@
    }

    /// Box owners indexed `row * 4 + col`.
    pub closed spec fn boxes_spec(&self) -> Seq<Option<Side>> {
        self.boxes@
    }

    pub closed spec fn turn_spec(&self) -> Side {
        self.turn
    }

    pub closed spec fn status_spec(&self) -> Status {
        self.status
    }

    pub closed spec fn last_edge_spec(&self) -> Option<usize> {
        self.last_edge
    }

    pub closed spec fn completed_spec(&self) -> Seq<(usize, usize)> {
        self.completed_last@
    }

    /// Score of White (index 0) and Black (index 1).
    pub closed spec fn scores_spec(&self) -> Seq<usize> {
        self.scores@
    }

    /// Tallies leave room for two more boxes per unclaimed edge, so no
    /// tally can overflow before the lattice fills.
    pub open spec fn wf(&self) -> bool {
        &&& self.edges_spec().len() == EDGES
        &&& self.boxes_spec().len() == 16
        &&& self.scores_spec().len() == 2
        &&& self.scores_spec()[0] + 2 * open_upto(self.edges_spec(), EDGES as int).len() <= usize::MAX
        &&& self.scores_spec()[1] + 2 * open_upto(self.edges_spec(), EDGES as int).len() <= usize::MAX
    }

    pub proof fn lemma_lens(&self)
        ensures
            self.edges_spec().len() == EDGES,
            self.boxes_spec().len() == 16,
            self.scores_spec().len() == 2,
    {
    }

    /// `g` is this game after the mover claims edge `e`: the boxes it
    /// closes are the mover's and score, closing one keeps the turn, and the
    /// last edge ends the game on the scores.
    pub open spec fn claimed_edge(&self, e: usize, g: Dots) -> bool {
        let mover = self.turn_spec();
        let edges = self.edges_spec().update(e as int, Some(mover));
        let done = newly_completed(edges, self.boxes_spec(), adjacent_boxes(e as int));
        let scores = self.scores_spec().update(
            side_idx(mover),
            (self.scores_spec()[side_idx(mover)] + done.len()) as usize,
        );
        &&& g.edges_spec() == edges
        &&& g.last_edge_spec() == Some(e)
        &&& g.completed_spec() == done
        &&& g.scores_spec() == scores
        &&& g.boxes_spec() == mark(self.boxes_spec(), done, mover)
        &&& if open_upto(edges, EDGES as int).len() == 0 {
            &&& g.status_spec() == if scores[0] > scores[1] {
                Status::Won(Side::White)
            } else if scores[0] < scores[1] {
                Status::Won(Side::Black)
            } else {
                Status::Draw
            }
            &&& g.turn_spec() == mover
        } else {
            &&& g.status_spec() == Status::Ongoing
            &&& g.turn_spec() == if done.len() == 0 {
                opposite_of(mover)
            } else {
                mover
            }
        }
    }

    /// A fresh board: no edge drawn, no box owned, White to move.
    pub open spec fn fresh(&self) -> bool {
        &&& self.wf()
        &&& forall|e: int| 0 <= e < EDGES ==> #[trigger] self.edges_spec()[e] is None
        &&& forall|b: int| 0 <= b < 16 ==> #[trigger] self.boxes_spec()[b] is None
        &&& self.turn_spec() == Side::White
        &&& self.status_spec() == Status::Ongoing
        &&& self.last_edge_spec() is None
        &&& self.completed_spec().len() == 0
        &&& self.scores_spec() == seq![0usize, 0usize]
    }

    pub fn new() -> (g: Self)
        ensures
            g.wf(),
            forall|e: int| 0 <= e < EDGES ==> g.edges_spec()[e] is None,
            forall|b: int| 0 <= b < 16 ==> g.boxes_spec()[b] is None,
            g.turn_spec() == Side::White,
            g.status_spec() == Status::Ongoing,
            g.last_edge_spec() is None,
            g.completed_spec().len() == 0,
            g.scores_spec() == seq![0usize, 0usize],
            scores_match(g.scores_spec(), g.boxes_spec()),
    {
        let g = Dots {
            edges: [None; EDGES],
            boxes: [None; 16],
            turn: Side::White,
            status: Status::Ongoing,
            last_edge: None,
            completed_last: Vec::new(),
            scores: [0; 2],
        };
        assert(g.scores@ =~= seq![0usize, 0usize]);
        proof {
            lemma_open_upto_len(g.edges@, 40);
            law_fresh_scores_match(g);
        }
        g
    }

    /// A copy of the whole position.
    pub fn copy(&self) -> (r: Self)
        ensures
            r.edges_spec() == self.edges_spec(),
            r.boxes_spec() == self.boxes_spec(),
            r.turn_spec() == self.turn_spec(),
            r.status_spec() == self.status_spec(),
            r.last_edge_spec() == self.last_edge_spec(),
            r.completed_spec() == self.completed_spec(),
            r.scores_spec() == self.scores_spec(),
    {
        let mut completed: Vec<(usize, usize)> = Vec::new();
        let mut i: usize = 0;
        while i < self.completed_last.len()
            invariant
                0 <= i <= self.completed_last@.len(),
                completed@ == self.completed_last@.take(i as int),
            decreases self.completed_last@.len() - i,
        {
            completed.push(self.completed_last[i]);
            assert(self.completed_last@.take(i + 1) =~= self.completed_last@.take(i as int).push(
                self.completed_last@[i as int],
            ));
            i += 1;
        }
        assert(self.completed_last@.take(self.completed_last@.len() as int)
            =~= self.completed_last@);
        Dots {
            edges: self.edges,
            boxes: self.boxes,
            turn: self.turn,
            status: self.status,
            last_edge: self.last_edge,
            completed_last: completed,
            scores: self.scores,
        }
    }

    pub fn claimed(&self, e: usize) -> (r: Option<Side>)
        ensures
            r == if e < EDGES {
                self.edges_spec()[e as int]
            } else {
                None
            },
    {
        if e < EDGES {
            self.edges[e]
        } else {
            None
        }
    }

    pub fn box_owner(&self, r: usize, c: usize) -> (o: Option<Side>)
        ensures
            o == if r < BOXES && c < BOXES {
                self.boxes_spec()[r * 4 + c]
            } else {
                None
            },
    {
        if r < BOXES && c < BOXES {
            self.boxes[r * BOXES + c]
        } else {
            None
        }
    }

    pub fn open_edges(&self) -> (r: Vec<usize>)
        ensures
            r@ == open_upto(self.edges_spec(), EDGES as int),
    {
        let mut out: Vec<usize> = Vec::new();
        let mut e: usize = 0;
        while e < EDGES
            invariant
                0 <= e <= EDGES,
                out@ == open_upto(self.edges@, e as int),
            decreases EDGES - e,
        {
            if self.edges[e].is_none() {
                out.push(e);
            }
            assert(out@ =~= open_upto(self.edges@, e + 1));
            e += 1;
        }
        out
    }

    pub fn turn(&self) -> (r: Side)
        ensures
            r == self.turn_spec(),
    {
        self.turn
    }

    pub fn status(&self) -> (r: Status)
        ensures
            r == self.status_spec(),
    {
        self.status
    }

    pub fn score(&self, side: Side) -> (r: usize)
        requires
            self.wf(),
        ensures
            r == self.scores_spec()[side_idx(side)],
    {
        self.scores[side_index(side)]
    }

    pub fn boxes_completed_last(&self) -> (r: &[(usize, usize)])
        ensures
            r@ == self.completed_spec(),
    {
        self.completed_last.as_slice()
    }

    /// Claims `e`; false when it's taken or the game is over. Completing a
    /// box keeps the mover's turn.
    #[verifier::rlimit(100)]
    #[verifier::spinoff_prover]
    pub fn play(&mut self, e: usize) -> (ok: bool)
        requires
            old(self).wf(),
        ensures
            final(self).wf(),
            ok == (old(self).status_spec() is Ongoing && e < EDGES && old(self).edges_spec()[e as int]
                is None),
            !ok ==> *final(self) == *old(self),
            ok ==> old(self).claimed_edge(e, *final(self)),
    {
        if !self.status.is_ongoing() || e >= EDGES || self.edges[e].is_some() {
            return false;
        }
        let mover = self.turn;
        let ghost old_boxes = self.boxes@;
        let ghost old_scores = self.scores@;
        proof {
            lemma_open_upto_len(self.edges@, 40);
            lemma_open_update(self.edges@, 40, e as int, Some(mover));
        }
        self.edges[e] = Some(mover);
        self.last_edge = Some(e);
        self.completed_last.clear();
        // Any adjacent box that just got its fourth edge belongs to mover.
        let (vert, row, col) = decompose(e);
        let mut adjacent: Vec<(usize, usize)> = Vec::new();
        if vert {
            if col > 0 {
                adjacent.push((row, col - 1));
            }
            if col < BOXES {
                adjacent.push((row, col));
            }
        } else {
            if row > 0 {
                adjacent.push((row - 1, col));
            }
            if row < BOXES {
                adjacent.push((row, col));
            }
        }
        let ghost adj = adjacent_boxes(e as int);
        proof {
            if e < 20 {
                assert(row <= 4 && col < 4);
            } else {
                assert(row < 4 && col <= 4);
            }
        }
        assert(adjacent@.len() == adj.len());
        assert(forall|k: int|
            0 <= k < adj.len() ==> (adjacent@[k].0 as int, adjacent@[k].1 as int) == #[trigger] adj[k]);
        let ghost edges1 = self.edges@;
        let ghost sc0 = self.scores@;
        proof {
            assert(newly_completed(edges1, old_boxes, adj.take(0)) =~= Seq::empty());
            assert(self.completed_last@ =~= Seq::empty());
            assert(mark(old_boxes, self.completed_last@, mover) == old_boxes);
        }
        if adjacent.len() > 0 {
            let (br, bc) = adjacent[0];
            assert((br as int, bc as int) == adj[0]);
            self.claim_if_complete(br, bc, mover);
            proof {
                let t1 = adj.take(1);
                assert(t1.drop_last() =~= adj.take(0));
                assert(t1.last() == adj[0]);
                assert(self.completed_last@ == newly_completed(edges1, old_boxes, t1));
                if self.completed_last@.len() > 0 {
                    assert(self.completed_last@.drop_last() =~= Seq::<(usize, usize)>::empty());
                }
                assert(self.boxes@ == mark(old_boxes, self.completed_last@, mover));
                assert(self.scores@ == sc0.update(
                    side_idx(mover),
                    (sc0[side_idx(mover)] + self.completed_last@.len()) as usize,
                ));
            }
        }
        if adjacent.len() > 1 {
            let (br, bc) = adjacent[1];
            assert((br as int, bc as int) == adj[1]);
            let ghost boxes1 = self.boxes@;
            let ghost done1 = self.completed_last@;
            proof {
                let f = adj[0];
                assert(br * 4 + bc != f.0 * 4 + f.1);
                assert(boxes1[br * 4 + bc] == old_boxes[br * 4 + bc]);
            }
            self.claim_if_complete(br, bc, mover);
            proof {
                let t2 = adj.take(2);
                assert(t2.drop_last() =~= adj.take(1));
                assert(t2.last() == adj[1]);
                assert(self.completed_last@ == newly_completed(edges1, old_boxes, t2));
                if self.completed_last@.len() > done1.len() {
                    assert(self.completed_last@.drop_last() =~= done1);
                }
                assert(self.boxes@ == mark(old_boxes, self.completed_last@, mover));
                assert(self.scores@ == sc0.update(
                    side_idx(mover),
                    (sc0[side_idx(mover)] + self.completed_last@.len()) as usize,
                ));
            }
        }
        assert(adj.take(adj.len() as int) =~= adj);
        let open = self.open_edges();
        if open.len() == 0 {
            self.status = if self.scores[0] > self.scores[1] {
                Status::Won(Side::White)
            } else if self.scores[0] < self.scores[1] {
                Status::Won(Side::Black)
            } else {
                Status::Draw
            };
            return true;
        }
        if self.completed_last.len() == 0 {
            self.turn = mover.opposite();
        }
        true
    }

    /// Hands box `(br, bc)` to `mover` when all four of its edges are claimed
    /// and nobody owns it yet.
    fn claim_if_complete(&mut self, br: usize, bc: usize, mover: Side)
        requires
            br < BOXES,
            bc < BOXES,
            old(self).edges@.len() == EDGES,
            old(self).boxes@.len() == 16,
            old(self).scores@.len() == 2,
            old(self).scores@[side_idx(mover)] + 1 <= usize::MAX,
        ensures
            ({
                let fresh = box_complete(old(self).edges@, br as int, bc as int)
                    && old(self).boxes@[br * 4 + bc] is None;
                &&& final(self).boxes@ == if fresh {
                    old(self).boxes@.update(br * 4 + bc, Some(mover))
                } else {
                    old(self).boxes@
                }
                &&& final(self).completed_last@ == if fresh {
                    old(self).completed_last@.push((br, bc))
                } else {
                    old(self).completed_last@
                }
                &&& final(self).scores@ == if fresh {
                    old(self).scores@.update(
                        side_idx(mover),
                        (old(self).scores@[side_idx(mover)] + 1) as usize,
                    )
                } else {
                    old(self).scores@
                }
            }),
            final(self).edges@ == old(self).edges@,
            final(self).turn == old(self).turn,
            final(self).status == old(self).status,
            final(self).last_edge == old(self).last_edge,
    {
        let be = box_edges(br, bc);
        let complete = self.edges[be[0]].is_some() && self.edges[be[1]].is_some()
            && self.edges[be[2]].is_some() && self.edges[be[3]].is_some();
        proof {
            assert(be@[0] == box_edges_spec(br as int, bc as int)[0]);
            assert(be@[1] == box_edges_spec(br as int, bc as int)[1]);
            assert(be@[2] == box_edges_spec(br as int, bc as int)[2]);
            assert(be@[3] == box_edges_spec(br as int, bc as int)[3]);
            if complete {
                assert forall|q: int| 0 <= q < 4 implies self.edges@[#[trigger] box_edges_spec(
                    br as int,
                    bc as int,
                )[q]] is Some by {
                    assert(be@[q] == box_edges_spec(br as int, bc as int)[q]);
                }
            }
        }
        if complete && self.boxes[br * BOXES + bc].is_none() {
            self.boxes[br * BOXES + bc] = Some(mover);
            let si = side_index(mover);
            self.scores[si] = self.scores[si] + 1;
            self.completed_last.push((br, bc));
        }
    }

    /// Direct tally manipulation, for staging positions.
    pub fn set_score(&mut self, side: Side, v: usize)
        requires
            old(self).wf(),
        ensures
            v + 2 * open_upto(old(self).edges_spec(), EDGES as int).len() <= usize::MAX
                ==> final(self).wf(),
            final(self).scores_spec() == old(self).scores_spec().update(side_idx(side), v),
            final(self).edges_spec() == old(self).edges_spec(),
            final(self).boxes_spec() == old(self).boxes_spec(),
            final(self).turn_spec() == old(self).turn_spec(),
            final(self).status_spec() == old(self).status_spec(),
            final(self).last_edge_spec() == old(self).last_edge_spec(),
            final(self).completed_spec() == old(self).completed_spec(),
    {
        self.scores[side_index(side)] = v;
    }

    /// Status override for staging finished positions.
    pub fn declare(&mut self, s: Status)
        ensures
            final(self).status_spec() == s,
            final(self).scores_spec() == old(self).scores_spec(),
            final(self).edges_spec() == old(self).edges_spec(),
            final(self).boxes_spec() == old(self).boxes_spec(),
            final(self).turn_spec() == old(self).turn_spec(),
            final(self).last_edge_spec() == old(self).last_edge_spec(),
            final(self).completed_spec() == old(self).completed_spec(),
    {
        self.status = s;
    }
}

proof fn lemma_open_upto_len(edges: Seq<Option<Side>>, n: int)
    requires
        0 <= n,
    ensures
        open_upto(edges, n).len() <= n,
    decreases n,
{
    if n > 0 {
        lemma_open_upto_len(edges, n - 1);
    }
}

proof fn lemma_open_update(edges: Seq<Option<Side>>, n: int, e: int, v: Option<Side>)
    requires
        0 <= n <= edges.len(),
        0 <= e < edges.len(),
        edges[e] is None,
        v is Some,
    ensures
        open_upto(edges.update(e, v), n).len() + if e < n {
            1int
        } else {
            0
        } == open_upto(edges, n).len(),
    decreases n,
{
    if n > 0 {
        lemma_open_update(edges, n - 1, e, v);
    }
}

/// [`open_upto`] holds exactly the unclaimed edges below `n`.
pub proof fn lemma_open_upto_contains(edges: Seq<Option<Side>>, n: int)
    requires
        0 <= n <= edges.len(),
        edges.len() == EDGES,
    ensures
        forall|e: usize| #[trigger]
            open_upto(edges, n).contains(e) <==> (e < n && edges[e as int] is None),
    decreases n,
{
    if n > 0 {
        lemma_open_upto_contains(edges, n - 1);
        let prev = open_upto(edges, n - 1);
        let s = open_upto(edges, n);
        let tail = if edges[n - 1] is None {
            seq![(n - 1) as usize]
        } else {
            Seq::<usize>::empty()
        };
        assert(s == prev + tail);
        assert forall|e: usize| #[trigger] s.contains(e) <==> (e < n && edges[e as int] is None) by {
            if s.contains(e) {
                let k = choose|k: int| 0 <= k < s.len() && s[k] == e;
                if k < prev.len() {
                    assert(prev[k] == e);
                    assert(prev.contains(e));
                }
            }
            if e < n && edges[e as int] is None {
                if e == n - 1 {
                    assert(s[prev.len() as int] == e);
                } else {
                    assert(prev.contains(e));
                    let k = choose|k: int| 0 <= k < prev.len() && prev[k] == e;
                    assert(s[k] == e);
                }
            }
        }
    }
}

/// While the game is on, [`Dots::open_edges`] lists exactly the edges that
/// [`Dots::play`] accepts.
pub proof fn law_open_edges_accept_play(g: Dots, e: usize)
    requires
        g.wf(),
        g.status_spec() is Ongoing,
    ensures
        open_upto(g.edges_spec(), EDGES as int).contains(e) <==> (e < EDGES
            && g.edges_spec()[e as int] is None),
{
    lemma_open_upto_contains(g.edges_spec(), EDGES as int);
}

/// Boxes among the first `n` owned by `side`.
pub open spec fn owned(boxes: Seq<Option<Side>>, side: Side, n: int) -> int
    decreases n,
{
    if n <= 0 {
        0
    } else {
        owned(boxes, side, n - 1) + if boxes[n - 1] == Some(side) {
            1int
        } else {
            0
        }
    }
}

/// Each side's score is the number of boxes it owns.
pub open spec fn scores_match(scores: Seq<usize>, boxes: Seq<Option<Side>>) -> bool {
    &&& scores[0] == owned(boxes, Side::White, 16)
    &&& scores[1] == owned(boxes, Side::Black, 16)
}

/// On a fresh board each side's score is the number of boxes it owns: none.
/// With [`law_scores_count_boxes`] this carries through every play from
/// [`Dots::new`].
pub proof fn law_fresh_scores_match(g: Dots)
    requires
        g.fresh(),
    ensures
        scores_match(g.scores_spec(), g.boxes_spec()),
{
    lemma_owned_none(g.boxes_spec(), Side::White, 16);
    lemma_owned_none(g.boxes_spec(), Side::Black, 16);
}

/// Each side's score is the number of boxes it owns on a fresh board (see
/// [`Dots::new`]) and stays so through every accepted play: a play that
/// claims edge `e` keeps the scores counting the owned boxes.
pub proof fn law_play_keeps_scores(g: Dots, e: usize, g2: Dots)
    requires
        g.wf(),
        g.status_spec() is Ongoing,
        e < EDGES,
        g.edges_spec()[e as int] is None,
        g.claimed_edge(e, g2),
        scores_match(g.scores_spec(), g.boxes_spec()),
    ensures
        scores_match(g2.scores_spec(), g2.boxes_spec()),
{
    law_scores_count_boxes(g, e);
}

proof fn lemma_owned_none(boxes: Seq<Option<Side>>, side: Side, n: int)
    requires
        0 <= n <= boxes.len(),
        forall|b: int| 0 <= b < boxes.len() ==> #[trigger] boxes[b] is None,
    ensures
        owned(boxes, side, n) == 0,
    decreases n,
{
    if n > 0 {
        lemma_owned_none(boxes, side, n - 1);
    }
}

proof fn lemma_owned_update(boxes: Seq<Option<Side>>, side: Side, n: int, i: int, v: Option<Side>)
    requires
        0 <= n <= boxes.len(),
        0 <= i < boxes.len(),
    ensures
        owned(boxes.update(i, v), side, n) == owned(boxes, side, n) + if i < n {
            (if v == Some(side) {
                1int
            } else {
                0
            }) - (if boxes[i] == Some(side) {
                1int
            } else {
                0
            })
        } else {
            0
        },
    decreases n,
{
    if n > 0 {
        lemma_owned_update(boxes, side, n - 1, i, v);
    }
}

/// The boxes next to an edge lie on the board, and two of them are
/// different boxes.
proof fn lemma_adjacent_shape(e: int)
    requires
        0 <= e < EDGES,
    ensures
        adjacent_boxes(e).len() <= 2,
        forall|k: int|
            0 <= k < adjacent_boxes(e).len() ==> 0 <= #[trigger] adjacent_boxes(e)[k].0 < 4
                && 0 <= adjacent_boxes(e)[k].1 < 4,
        adjacent_boxes(e).len() == 2 ==> adjacent_boxes(e)[0].0 * 4 + adjacent_boxes(e)[0].1
            != adjacent_boxes(e)[1].0 * 4 + adjacent_boxes(e)[1].1,
{
}

/// Claiming an edge credits the mover with exactly the boxes it closes, so
/// scores that counted the owned boxes before a move still count them
/// after it.
pub proof fn law_scores_count_boxes(g: Dots, e: usize)
    requires
        g.wf(),
        e < EDGES,
        g.edges_spec()[e as int] is None,
        scores_match(g.scores_spec(), g.boxes_spec()),
    ensures
        ({
            let mover = g.turn_spec();
            let edges = g.edges_spec().update(e as int, Some(mover));
            let done = newly_completed(edges, g.boxes_spec(), adjacent_boxes(e as int));
            let scores = g.scores_spec().update(
                side_idx(mover),
                (g.scores_spec()[side_idx(mover)] + done.len()) as usize,
            );
            scores_match(scores, mark(g.boxes_spec(), done, mover))
        }),
{
    let mover = g.turn_spec();
    let boxes = g.boxes_spec();
    let edges = g.edges_spec().update(e as int, Some(mover));
    let adj = adjacent_boxes(e as int);
    let done = newly_completed(edges, boxes, adj);
    lemma_adjacent_shape(e as int);
    g.lemma_lens();
    lemma_open_upto_contains(g.edges_spec(), EDGES as int);
    assert(open_upto(g.edges_spec(), EDGES as int).contains(e));
    reveal_with_fuel(newly_completed, 3);
    reveal_with_fuel(mark, 3);
    let other = opposite_of(mover);
    if adj.len() == 0 {
        assert(done.len() == 0);
    } else if adj.len() == 1 {
        assert(adj.drop_last().len() == 0);
        let b = adj[0];
        let i = b.0 * 4 + b.1;
        if done.len() == 1 {
            assert(done[0] == (b.0 as usize, b.1 as usize));
            assert(done.drop_last().len() == 0);
            lemma_owned_update(boxes, mover, 16, i, Some(mover));
            lemma_owned_update(boxes, other, 16, i, Some(mover));
        }
    } else {
        let (b0, b1) = (adj[0], adj[1]);
        let (i0, i1) = (b0.0 * 4 + b0.1, b1.0 * 4 + b1.1);
        let first = adj.drop_last();
        assert(first.len() == 1 && first[0] == b0 && first.last() == b0);
        assert(first.drop_last().len() == 0);
        assert(adj.last() == b1);
        let d0 = newly_completed(edges, boxes, first);
        if d0.len() == 1 {
            assert(d0[0] == (b0.0 as usize, b0.1 as usize));
            lemma_owned_update(boxes, mover, 16, i0, Some(mover));
            lemma_owned_update(boxes, other, 16, i0, Some(mover));
            let m0 = boxes.update(i0, Some(mover));
            assert(d0.drop_last().len() == 0);
            assert(mark(boxes, d0, mover) == m0);
            if done.len() == 2 {
                assert(done.drop_last() == d0);
                assert(done.last() == (b1.0 as usize, b1.1 as usize));
                lemma_owned_update(m0, mover, 16, i1, Some(mover));
                lemma_owned_update(m0, other, 16, i1, Some(mover));
            }
        } else {
            assert(d0.len() == 0);
            if done.len() == 1 {
                assert(done[0] == (b1.0 as usize, b1.1 as usize));
                assert(done.drop_last().len() == 0);
                lemma_owned_update(boxes, mover, 16, i1, Some(mover));
                lemma_owned_update(boxes, other, 16, i1, Some(mover));
            }
        }
    }
    match mover {
        Side::White => {},
        Side::Black => {},
    }
}

} // verus!

//! Tiny geometry helpers shared by game UIs: hit testing, centring, and the
//! choice of a cell size that fits a board into a terminal area.

use vstd::prelude::*;

verus! {

/// A screen rectangle in terminal cells: top-left corner plus size.
#[derive(Clone, Copy, PartialEq, Eq, Debug, Structural)]
pub struct Rect {
    pub x: u16,
    pub y: u16,
    pub width: u16,
    pub height: u16,
}

/// Largest value of a `u16`, as a mathematical integer.
pub open spec fn u16_max() -> int {
    0xffff
}

/// `v` clamped into the `u16` range, the way saturating arithmetic does.
pub open spec fn clamp16(v: int) -> int {
    if v < 0 {
        0
    } else if v > u16_max() {
        u16_max()
    } else {
        v
    }
}

/// `a - b` floored at zero.
pub open spec fn sub0(a: int, b: int) -> int {
    if a >= b {
        a - b
    } else {
        0
    }
}

impl Rect {
    /// The far edges stay inside the `u16` coordinate space.
    pub open spec fn wf(self) -> bool {
        self.x + self.width <= u16_max() && self.y + self.height <= u16_max()
    }

    /// A rectangle at `(x, y)`; a size that would run past the coordinate
    /// space is clamped so that the far edges stay representable.
    pub fn new(x: u16, y: u16, width: u16, height: u16) -> (r: Rect)
        ensures
            r.x == x,
            r.y == y,
            r.width == (if width > u16_max() - x { u16_max() - x } else { width as int }),
            r.height == (if height > u16_max() - y { u16_max() - y } else { height as int }),
            r.wf(),
    {
        let max_width = 0xffffu16 - x;
        let max_height = 0xffffu16 - y;
        let width = if width > max_width {
            max_width
        } else {
            width
        };
        let height = if height > max_height {
            max_height
        } else {
            height
        };
        Rect { x, y, width, height }
    }
}

/// True when the cell `(col, row)` lies inside `r`.
pub fn in_rect(r: Rect, col: u16, row: u16) -> (b: bool)
    requires
        r.wf(),
    ensures
        b == (r.x <= col < r.x + r.width && r.y <= row < r.y + r.height),
{
    col >= r.x && col < r.x + r.width && row >= r.y && row < r.y + r.height
}

/// Largest `width`×`height` rectangle centered inside `area`, clamped to fit.
pub fn centered_rect(area: Rect, width: u16, height: u16) -> (r: Rect)
    requires
        area.wf(),
    ensures
        r.x == area.x + sub0(area.width as int, width as int) / 2,
        r.y == area.y + sub0(area.height as int, height as int) / 2,
        r.width == (if width < area.width { width } else { area.width }),
        r.height == (if height < area.height { height } else { area.height }),
        r.wf(),
{
    let dw = area.width.saturating_sub(width);
    let dh = area.height.saturating_sub(height);
    Rect {
        x: area.x + dw / 2,
        y: area.y + dh / 2,
        width: if width < area.width {
            width
        } else {
            area.width
        },
        height: if height < area.height {
            height
        } else {
            area.height
        },
    }
}

/// A proportion-aware placement for a fixed-shape board canvas.
///
/// Each board cell may span multiple terminal columns *and* rows. Because
/// terminal glyphs are roughly twice as tall as they are wide, the scorer
/// compares `board_width` against `2 x board_height` and prefers the
/// candidate closest to a perfect square, tie-breaking toward more coverage.
#[derive(Clone, Copy, PartialEq, Eq, Debug, Structural)]
pub struct Canvas {
    /// Screen position of the top-left playable cell.
    pub x0: u16,
    pub y0: u16,
    /// Chosen cell width in terminal columns (never zero).
    pub cell_w: u16,
    /// Chosen cell height in terminal rows (never zero).
    pub cell_h: u16,
}

/// Cell dimensions candidate: `(width, height)`.
pub type CellSize = (u16, u16);

/// Product of two `u16` values, saturating at `u16::MAX`.
fn mul_sat16(a: u16, b: u16) -> (r: u16)
    ensures
        r == clamp16(a * b),
{
    assert(0 <= a * b <= 0xffff * 0xffff) by (nonlinear_arith)
        requires
            0 <= a <= 0xffff,
            0 <= b <= 0xffff,
    ;
    let p: u32 = (a as u32) * (b as u32);
    if p > 0xffff {
        0xffff
    } else {
        p as u16
    }
}

/// Columns occupied by `cols` cells of width `w`, including the spacer
/// columns between cells wider than one, saturating at `u16::MAX`.
pub open spec fn board_width_spec(cols: int, w: int) -> int {
    clamp16(cols + clamp16(sub0(cols, 1) * sub0(w, 1)))
}

/// Columns occupied by `cols` cells of width `cell_w`, including single
/// spacer columns between cells wider than one.
pub fn board_width(cols: u16, cell_w: u16) -> (r: u16)
    ensures
        r == board_width_spec(cols as int, cell_w as int),
{
    let spacers = mul_sat16(cols.saturating_sub(1), cell_w.saturating_sub(1));
    cols.saturating_add(spacers)
}

/// Rows occupied by `rows` cells of height `cell_h`.
pub fn board_height(rows: u16, cell_h: u16) -> (r: u16)
    ensures
        r == board_width_spec(rows as int, cell_h as int),
{
    let spacers = mul_sat16(rows.saturating_sub(1), cell_h.saturating_sub(1));
    rows.saturating_add(spacers)
}

/// Largest value of a `u32`, as a mathematical integer.
pub open spec fn u32_max() -> int {
    0xffff_ffff
}

/// Visual footprint `w × 2h`, saturating at `u32::MAX`.
pub open spec fn visual_area_spec(w: int, h: int) -> int {
    if w * (2 * h) > u32_max() {
        u32_max()
    } else {
        w * (2 * h)
    }
}

/// Distance between `w` and `2h` (the doubled height saturating at
/// `u16::MAX`).
pub open spec fn imbalance_spec(w: int, h: int) -> int {
    let h2 = clamp16(2 * h);
    if w >= h2 {
        w - h2
    } else {
        h2 - w
    }
}

/// Visual footprint once the terminal's ~1:2 character aspect is
/// compensated: `w x (2h)`. Maximizing this fills the screen; ties fall
/// back to whichever block is closest to perfectly square.
fn visual_area(w: u16, h: u16) -> (r: u32)
    ensures
        r == visual_area_spec(w as int, h as int),
{
    assert(0 <= w * (2 * h) <= 0xffff * 0x1fffe) by (nonlinear_arith)
        requires
            0 <= w <= 0xffff,
            0 <= h <= 0xffff,
    ;
    let p: u64 = (w as u64) * (2 * (h as u64));
    if p > 0xffff_ffff {
        0xffff_ffff
    } else {
        p as u32
    }
}

fn imbalance(w: u16, h: u16) -> (r: u16)
    ensures
        r == imbalance_spec(w as int, h as int),
{
    let h2 = mul_sat16(h, 2);
    if w >= h2 {
        w - h2
    } else {
        h2 - w
    }
}

/// Whether option `o` fits: non-degenerate, and the board it yields fits
/// inside `inner_w × inner_h`.
pub open spec fn option_fits(cols: int, rows: int, inner_w: int, inner_h: int, o: CellSize) -> bool {
    &&& o.0 != 0 && o.1 != 0 && cols != 0 && rows != 0
    &&& board_width_spec(cols, o.0 as int) <= inner_w
    &&& board_width_spec(rows, o.1 as int) <= inner_h
}

/// Whether option `i` of `opts` fits the area left inside the border.
pub open spec fn fits_at(area: Rect, cols: int, rows: int, border: int, opts: Seq<CellSize>, i: int) -> bool {
    option_fits(cols, rows, area.width - 2 * border, area.height - 2 * border, opts[i])
}

/// Ranking key of an option: coverage first, then squareness.
pub open spec fn option_key(cols: int, rows: int, o: CellSize) -> (int, int) {
    let bw = board_width_spec(cols, o.0 as int);
    let bh = board_width_spec(rows, o.1 as int);
    (visual_area_spec(bw, bh), imbalance_spec(bw, bh))
}

/// `a` ranks strictly above `b`: more coverage, or equal coverage and a
/// squarer shape.
pub open spec fn key_better(a: (int, int), b: (int, int)) -> bool {
    a.0 > b.0 || (a.0 == b.0 && a.1 < b.1)
}

/// The canvas placing option `o` centered in `area` within its border.
pub open spec fn canvas_for(area: Rect, cols: int, rows: int, border: int, o: CellSize) -> Canvas {
    let inner_w = area.width - 2 * border;
    let inner_h = area.height - 2 * border;
    let bw = board_width_spec(cols, o.0 as int);
    let bh = board_width_spec(rows, o.1 as int);
    Canvas {
        x0: (area.x + border + (inner_w - bw) / 2) as u16,
        y0: (area.y + border + (inner_h - bh) / 2) as u16,
        cell_w: o.0,
        cell_h: o.1,
    }
}

/// What [`fit_canvas`] answers for `opts`: `None` when the border leaves no
/// room or no option fits; otherwise the canvas of the first option whose
/// key no fitting option beats.
pub open spec fn fit_canvas_post(
    area: Rect,
    cols: int,
    rows: int,
    border: int,
    opts: Seq<CellSize>,
    r: Option<Canvas>,
) -> bool {
    let inner_w = area.width - 2 * border;
    let inner_h = area.height - 2 * border;
    if inner_w < 0 || inner_h < 0 {
        r is None
    } else {
        match r {
            None => forall|i: int| 0 <= i < opts.len() ==> !#[trigger] fits_at(area, cols, rows, border, opts, i),
            Some(c) => exists|k: int|
                {
                    &&& 0 <= k < opts.len()
                    &&& fits_at(area, cols, rows, border, opts, k)
                    &&& c == canvas_for(area, cols, rows, border, opts[k])
                    &&& forall|j: int|
                        0 <= j < opts.len() && #[trigger] fits_at(area, cols, rows, border, opts, j) ==> !key_better(
                            option_key(cols, rows, opts[j]),
                            option_key(cols, rows, opts[k]),
                        )
                    &&& forall|j: int|
                        0 <= j < k && #[trigger] fits_at(area, cols, rows, border, opts, j) ==> key_better(
                            option_key(cols, rows, opts[k]),
                            option_key(cols, rows, opts[j]),
                        )
                },
        }
    }
}

/// See [`Canvas`]. Candidates are `(cell_w, cell_h)` pairs; the best-fitting,
/// best-proportioned one wins. Returns None when nothing fits.
pub fn fit_canvas(area: Rect, cols: u16, rows: u16, border: u16, options: &[CellSize]) -> (r:
    Option<Canvas>)
    requires
        area.wf(),
        2 * border <= u16_max(),
    ensures
        fit_canvas_post(area, cols as int, rows as int, border as int, options@, r),
{
    let b2 = 2 * border;
    if area.width < b2 || area.height < b2 {
        return None;
    }
    let inner_w = area.width - b2;
    let inner_h = area.height - b2;
    let mut best: Option<(Canvas, (u32, u32))> = None;
    let ghost mut bk: int = 0;
    let n = options.len();
    let mut i: usize = 0;
    while i < n
        invariant
            n == options@.len(),
            0 <= i <= n,
            area.wf(),
            inner_w == area.width - 2 * border,
            inner_h == area.height - 2 * border,
            best is None ==> forall|j: int| 0 <= j < i ==> !#[trigger] fits_at(area, cols as int, rows as int, border as int, options@, j),
            best matches Some(bb) ==> {
                &&& 0 <= bk < i
                &&& fits_at(area, cols as int, rows as int, border as int, options@, bk)
                &&& bb.0 == canvas_for(area, cols as int, rows as int, border as int, options@[bk])
                &&& (bb.1.0 as int, bb.1.1 as int) == option_key(
                    cols as int,
                    rows as int,
                    options@[bk],
                )
                &&& forall|j: int|
                    0 <= j < i && #[trigger] fits_at(area, cols as int, rows as int, border as int, options@, j) ==> !key_better(
                        option_key(cols as int, rows as int, options@[j]),
                        option_key(cols as int, rows as int, options@[bk]),
                    )
                &&& forall|j: int|
                    0 <= j < bk && #[trigger] fits_at(area, cols as int, rows as int, border as int, options@, j) ==> key_better(
                        option_key(cols as int, rows as int, options@[bk]),
                        option_key(cols as int, rows as int, options@[j]),
                    )
            },
        decreases n - i,
    {
        let (cw, ch) = options[i];
        if cw == 0 || ch == 0 || cols == 0 || rows == 0 {
            i += 1;
            continue;
        }
        let bw = board_width(cols, cw);
        let bh = board_height(rows, ch);
        if bw > inner_w || bh > inner_h {
            i += 1;
            continue;
        }
        let canvas = Canvas {
            x0: area.x + border + (inner_w - bw) / 2,
            y0: area.y + border + (inner_h - bh) / 2,
            cell_w: cw,
            cell_h: ch,
        };
        let key: (u32, u32) = (visual_area(bw, bh), imbalance(bw, bh) as u32);
        let better = match best {
            None => true,
            Some((_, (ba, bd))) => {
                let (na, nd) = key;
                na > ba || (na == ba && nd < bd)
            },
        };
        if better {
            best = Some((canvas, key));
            proof {
                bk = i as int;
            }
        }
        i += 1;
    }
    match best {
        Some((c, _)) => Some(c),
        None => None,
    }
}

/// Convenience wrapper: single-row cells at the given widths (legacy shape).
pub fn fit_canvas_rows(area: Rect, cols: u16, rows: u16, border: u16, cell_options: &[u16]) -> (r:
    Option<Canvas>)
    requires
        area.wf(),
        2 * border <= u16_max(),
    ensures
        fit_canvas_post(
            area,
            cols as int,
            rows as int,
            border as int,
            cell_options@.map_values(|w: u16| (w, 1u16)),
            r,
        ),
{
    let mut owned: Vec<CellSize> = Vec::new();
    let mut i: usize = 0;
    while i < cell_options.len()
        invariant
            0 <= i <= cell_options@.len(),
            owned@ == cell_options@.take(i as int).map_values(|w: u16| (w, 1u16)),
        decreases cell_options@.len() - i,
    {
        owned.push((cell_options[i], 1));
        assert(cell_options@.take(i + 1) == cell_options@.take(i as int).push(cell_options@[i as int]));
        i += 1;
    }
    assert(cell_options@.take(cell_options@.len() as int) == cell_options@);
    fit_canvas(area, cols, rows, border, owned.as_slice())
}

/// A cell `(w, h)` compensates the ~1:2 glyph aspect within one column.
pub open spec fn proportioned(w: int, h: int) -> bool {
    imbalance_spec(w, h) <= 1
}

/// Qualifying cells of height `h` with widths `1..=w`, narrowest first.
pub open spec fn row_candidates(h: int, w: int) -> Seq<CellSize>
    decreases w,
{
    if w <= 0 {
        Seq::empty()
    } else {
        row_candidates(h, w - 1) + if proportioned(w, h) {
            seq![(w as u16, h as u16)]
        } else {
            Seq::empty()
        }
    }
}

/// Qualifying cells with heights `1..=h` and widths `1..=w`, in row-major
/// generation order (height outer, width inner).
pub open spec fn ladder_candidates(h: int, w: int) -> Seq<CellSize>
    decreases h,
{
    if h <= 0 {
        Seq::empty()
    } else {
        ladder_candidates(h - 1, w) + row_candidates(h, w)
    }
}

/// Screen area a board of `cols × rows` covers with cell `c`, saturating.
pub open spec fn ladder_key(cols: int, rows: int, c: CellSize) -> int {
    clamp16(board_width_spec(cols, c.0 as int) * board_width_spec(rows, c.1 as int))
}

/// Inserts `x` into the descending-by-key sequence `s`, after every entry
/// whose key is at least as large (so equal keys keep their order).
pub open spec fn insert_desc(cols: int, rows: int, s: Seq<CellSize>, x: CellSize) -> Seq<CellSize>
    decreases s.len(),
{
    if s.len() == 0 {
        seq![x]
    } else if ladder_key(cols, rows, s.last()) >= ladder_key(cols, rows, x) {
        s.push(x)
    } else {
        insert_desc(cols, rows, s.drop_last(), x).push(s.last())
    }
}

/// Stable sort of `s` by descending key.
pub open spec fn sort_desc(cols: int, rows: int, s: Seq<CellSize>) -> Seq<CellSize>
    decreases s.len(),
{
    if s.len() == 0 {
        s
    } else {
        insert_desc(cols, rows, sort_desc(cols, rows, s.drop_last()), s.last())
    }
}

proof fn lemma_insert_desc_split(cols: int, rows: int, s: Seq<CellSize>, x: CellSize, j: int)
    requires
        0 <= j <= s.len(),
        j == 0 || ladder_key(cols, rows, s[j - 1]) >= ladder_key(cols, rows, x),
        forall|k: int| j <= k < s.len() ==> ladder_key(cols, rows, s[k]) < ladder_key(cols, rows, x),
    ensures
        insert_desc(cols, rows, s, x) == s.take(j).push(x) + s.skip(j),
    decreases s.len(),
{
    if s.len() == 0 {
        assert(s.take(j).push(x) + s.skip(j) =~= seq![x]);
    } else if j == s.len() {
        assert(s.take(j).push(x) + s.skip(j) =~= s.push(x));
    } else {
        let t = s.drop_last();
        lemma_insert_desc_split(cols, rows, t, x, j);
        assert(insert_desc(cols, rows, t, x).push(s.last()) =~= s.take(j).push(x) + s.skip(j));
    }
}

fn ladder_key_exec(cols: u16, rows: u16, c: CellSize) -> (r: u16)
    ensures
        r == ladder_key(cols as int, rows as int, c),
{
    mul_sat16(board_width(cols, c.0), board_height(rows, c.1))
}

/// Generates near-square cell candidates from roomiest to tightest.
///
/// A cell `(w, h)` qualifies when it compensates the terminal's ~1:2 glyph
/// aspect within one column (`|w - 2h| <= 1`). Boards pick the first entry
/// that fits, which is the largest possible rendition.
pub fn proportional_ladder(cols: u16, rows: u16, max_cell_w: u16, max_cell_h: u16) -> (out: Vec<
    CellSize,
>)
    ensures
        out@ == sort_desc(
            cols as int,
            rows as int,
            ladder_candidates(
                if max_cell_h == 0 { 1 } else { max_cell_h as int },
                if max_cell_w == 0 { 1 } else { max_cell_w as int },
            ),
        ),
{
    let hard_w: u16 = if max_cell_w == 0 {
        1
    } else {
        max_cell_w
    };
    let hard_h: u16 = if max_cell_h == 0 {
        1
    } else {
        max_cell_h
    };
    let mut cands: Vec<CellSize> = Vec::new();
    let mut h: u32 = 1;
    while h <= hard_h as u32
        invariant
            1 <= h <= hard_h as int + 1,
            cands@ == ladder_candidates(h - 1, hard_w as int),
        decreases hard_h as int + 1 - h,
    {
        let mut w: u32 = 1;
        while w <= hard_w as u32
            invariant
                1 <= h <= hard_h,
                1 <= w <= hard_w as int + 1,
                cands@ == ladder_candidates(h - 1, hard_w as int) + row_candidates(
                    h as int,
                    w - 1,
                ),
            decreases hard_w as int + 1 - w,
        {
            if imbalance(w as u16, h as u16) <= 1 {
                cands.push((w as u16, h as u16));
            }
            assert(cands@ =~= ladder_candidates(h - 1, hard_w as int) + row_candidates(
                h as int,
                w as int,
            ));
            w += 1;
        }
        assert(cands@ =~= ladder_candidates(h as int, hard_w as int));
        h += 1;
    }
    let ghost all = cands@;
    let mut out: Vec<CellSize> = Vec::new();
    let n = cands.len();
    let mut i: usize = 0;
    while i < n
        invariant
            n == all.len(),
            cands@ == all,
            0 <= i <= n,
            out@ == sort_desc(cols as int, rows as int, all.take(i as int)),
        decreases n - i,
    {
        let x = cands[i];
        let kx = ladder_key_exec(cols, rows, x);
        let ghost s = out@;
        let mut j = out.len();
        out.push(x);
        while j > 0 && ladder_key_exec(cols, rows, out[j - 1]) < kx
            invariant
                0 <= j <= s.len(),
                out@.len() == s.len() + 1,
                kx == ladder_key(cols as int, rows as int, x),
                forall|k: int| 0 <= k < j ==> out@[k] == s[k],
                forall|k: int| j < k < out@.len() ==> out@[k] == s[k - 1],
                forall|k: int|
                    j <= k < s.len() ==> ladder_key(cols as int, rows as int, s[k]) < kx,
            decreases j,
        {
            let prev = out[j - 1];
            out.set(j, prev);
            j -= 1;
        }
        out.set(j, x);
        proof {
            lemma_insert_desc_split(cols as int, rows as int, s, x, j as int);
            assert(out@ =~= s.take(j as int).push(x) + s.skip(j as int));
            assert(all.take(i + 1).drop_last() =~= all.take(i as int));
        }
        i += 1;
    }
    assert(all.take(n as int) =~= all);
    out
}

/// The grid cell `(row, col)` under the terminal position `(col, row)` for
/// a text board drawn at `origin`, with cells `cell_w` columns wide and one
/// row tall; `None` off the board.
pub fn grid_cell(origin: (u16, u16), cell_w: u16, cols: usize, rows: usize, col: u16, row: u16) -> (r:
    Option<(usize, usize)>)
    ensures
        r == if col < origin.0 || row < origin.1 || cell_w == 0 {
            None
        } else {
            let c = ((col - origin.0) / (cell_w as int)) as usize;
            let rr = (row - origin.1) as usize;
            if c < cols && rr < rows {
                Some((rr, c))
            } else {
                None
            }
        },
{
    if col < origin.0 || row < origin.1 || cell_w == 0 {
        return None;
    }
    let c = ((col - origin.0) / cell_w) as usize;
    let r = (row - origin.1) as usize;
    if c < cols && r < rows {
        Some((r, c))
    } else {
        None
    }
}

} // verus!

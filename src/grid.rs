use vstd::prelude::*;

verus! {

/// The glyph written where two different connection lines cross.
pub const CROSSING: char = '\u{253C}';

/// What a cell shows.
#[derive(Clone, Copy, Debug, PartialEq, Eq, Structural)]
pub enum CellKind {
    Blank,
    /// Part of a filled box; the shade tells boxes apart.
    Fill(u8),
    /// Part of a connection line.
    Line,
    Text,
}

#[derive(Clone, Copy, Debug, PartialEq, Eq, Structural)]
pub struct Cell {
    pub glyph: char,
    pub kind: CellKind,
}

pub open spec fn blank() -> Cell {
    Cell { glyph: ' ', kind: CellKind::Blank }
}

/// What a cell becomes when `new` is drawn over `old`: a later draw wins,
/// except that two connection cells meet in a crossing glyph when `crossings`
/// is on.
pub open spec fn merge(old: Cell, new: Cell, crossings: bool) -> Cell {
    if crossings && old.kind == CellKind::Line && new.kind == CellKind::Line {
        Cell { glyph: CROSSING, kind: CellKind::Line }
    } else {
        new
    }
}

fn merge_cells(old: Cell, new: Cell, crossings: bool) -> (r: Cell)
    ensures
        r == merge(old, new, crossings),
{
    if crossings && old.kind == CellKind::Line && new.kind == CellKind::Line {
        Cell { glyph: CROSSING, kind: CellKind::Line }
    } else {
        new
    }
}

proof fn lemma_index(cx: int, cy: int, w: int, h: int)
    requires
        0 <= cx < w,
        0 <= cy < h,
    ensures
        0 <= cy * w + cx < w * h,
{
    assert(0 <= cy * w) by (nonlinear_arith)
        requires 0 <= cy, 0 <= w;
    assert(cy * w + cx < w * h) by (nonlinear_arith)
        requires 0 <= cx < w, 0 <= cy < h;
}

proof fn lemma_index_distinct(cx: int, cy: int, ax: int, ay: int, w: int)
    requires
        0 <= cx < w,
        0 <= ax < w,
        0 <= cy,
        0 <= ay,
        cx != ax || cy != ay,
    ensures
        cy * w + cx != ay * w + ax,
{
    if cy == ay {
    } else if cy < ay {
        assert(cy * w + w <= ay * w) by (nonlinear_arith)
            requires cy < ay, 0 <= w;
    } else {
        assert(ay * w + w <= cy * w) by (nonlinear_arith)
            requires ay < cy, 0 <= w;
    }
}

/// A cell grid of fixed size that every draw is clipped against. Draws are
/// given in diagram coordinates; the grid shows the diagram shifted by the scroll
/// offset, so the grid cell (cx, cy) shows the diagram point (cx + scroll_x, cy + scroll_y).
pub struct OverdrawBuffer {
    width: usize,
    height: usize,
    cells: Vec<Cell>,
    scroll_x: i64,
    scroll_y: i64,
    crossings: bool,
}

impl OverdrawBuffer {
    pub closed spec fn width_view(&self) -> int {
        self.width as int
    }

    pub closed spec fn height_view(&self) -> int {
        self.height as int
    }

    pub closed spec fn scroll_x_view(&self) -> int {
        self.scroll_x as int
    }

    pub closed spec fn scroll_y_view(&self) -> int {
        self.scroll_y as int
    }

    pub closed spec fn crossings_view(&self) -> bool {
        self.crossings
    }

    pub closed spec fn wf(&self) -> bool {
        &&& self.cells@.len() == self.width * self.height
        &&& self.width * self.height <= usize::MAX
    }

    /// The cell shown at grid column `cx`, grid row `cy`.
    pub closed spec fn cell(&self, cx: int, cy: int) -> Cell {
        self.cells@[cy * self.width + cx]
    }

    pub open spec fn in_grid(&self, cx: int, cy: int) -> bool {
        0 <= cx < self.width_view() && 0 <= cy < self.height_view()
    }

    /// Same size, scroll and mode.
    pub open spec fn same_frame(&self, other: &OverdrawBuffer) -> bool {
        &&& self.width_view() == other.width_view()
        &&& self.height_view() == other.height_view()
        &&& self.scroll_x_view() == other.scroll_x_view()
        &&& self.scroll_y_view() == other.scroll_y_view()
        &&& self.crossings_view() == other.crossings_view()
    }

    /// A blank grid of `width` by `height` cells, scrolled by the given offsets.
    pub fn new(width: usize, height: usize, scroll_x: i64, scroll_y: i64, crossings: bool) -> (r: OverdrawBuffer)
        requires
            width * height <= usize::MAX,
        ensures
            r.wf(),
            r.width_view() == width,
            r.height_view() == height,
            r.scroll_x_view() == scroll_x,
            r.scroll_y_view() == scroll_y,
            r.crossings_view() == crossings,
            forall|cx: int, cy: int| r.in_grid(cx, cy) ==> #[trigger] r.cell(cx, cy) == blank(),
    {
        let total = width * height;
        let mut cells: Vec<Cell> = Vec::new();
        let mut k: usize = 0;
        while k < total
            invariant
                k <= total,
                cells@.len() == k,
                forall|m: int| 0 <= m < k ==> #[trigger] cells@[m] == blank(),
            decreases total - k,
        {
            cells.push(Cell { glyph: ' ', kind: CellKind::Blank });
            k += 1;
        }
        let r = OverdrawBuffer { width, height, cells, scroll_x, scroll_y, crossings };
        assert forall|cx: int, cy: int| r.in_grid(cx, cy) implies #[trigger] r.cell(cx, cy) == blank() by {
            lemma_index(cx, cy, width as int, height as int);
        }
        r
    }

    pub fn width(&self) -> (r: usize)
        ensures
            r == self.width_view(),
    {
        self.width
    }

    pub fn height(&self) -> (r: usize)
        ensures
            r == self.height_view(),
    {
        self.height
    }

    /// The cell at grid column `cx`, grid row `cy`.
    pub fn get(&self, cx: usize, cy: usize) -> (r: Cell)
        requires
            self.wf(),
            self.in_grid(cx as int, cy as int),
        ensures
            r == self.cell(cx as int, cy as int),
    {
        proof {
            lemma_index(cx as int, cy as int, self.width as int, self.height as int);
        }
        self.cells[cy * self.width + cx]
    }

    /// Writes one in-grid cell, merging when `blend` is set.
    fn write(&mut self, cx: usize, cy: usize, c: Cell, blend: bool)
        requires
            old(self).wf(),
            old(self).in_grid(cx as int, cy as int),
        ensures
            final(self).wf(),
            final(self).same_frame(old(self)),
            forall|ax: int, ay: int| final(self).in_grid(ax, ay) ==> #[trigger] final(self).cell(ax, ay) == if ax == cx
                && ay == cy {
                if blend { merge(old(self).cell(ax, ay), c, old(self).crossings_view()) } else { c }
            } else {
                old(self).cell(ax, ay)
            },
    {
        proof {
            lemma_index(cx as int, cy as int, self.width as int, self.height as int);
        }
        let k = cy * self.width + cx;
        let v = if blend { merge_cells(self.cells[k], c, self.crossings) } else { c };
        self.cells.set(k, v);
        proof {
            assert forall|ax: int, ay: int| self.in_grid(ax, ay) && !(ax == cx && ay == cy) implies
                #[trigger] self.cell(ax, ay) == old(self).cell(ax, ay) by {
                lemma_index(ax, ay, self.width as int, self.height as int);
                lemma_index_distinct(ax, ay, cx as int, cy as int, self.width as int);
            }
        }
    }

    /// Draws `c` over the rectangle at diagram point (x, y), `w` wide and `h`
    /// high, merging with what is there when `blend` is set.
    fn paint(&mut self, x: i64, y: i64, w: usize, h: usize, c: Cell, blend: bool)
        requires
            old(self).wf(),
        ensures
            final(self).wf(),
            final(self).same_frame(old(self)),
            forall|cx: int, cy: int| final(self).in_grid(cx, cy) ==> #[trigger] final(self).cell(cx, cy) == if x <= cx
                + old(self).scroll_x_view() < x + w && y <= cy + old(self).scroll_y_view() < y + h {
                if blend { merge(old(self).cell(cx, cy), c, old(self).crossings_view()) } else { c }
            } else {
                old(self).cell(cx, cy)
            },
    {
        let ghost before = *self;
        let gx0: i128 = x as i128 - self.scroll_x as i128;
        let gy0: i128 = y as i128 - self.scroll_y as i128;
        let gx1: i128 = gx0 + w as i128;
        let gy1: i128 = gy0 + h as i128;
        let lo_x: usize = if gx0 < 0 { 0 } else if gx0 > self.width as i128 { self.width } else { gx0 as usize };
        let hi_x: usize = if gx1 < lo_x as i128 { lo_x } else if gx1 > self.width as i128 { self.width } else { gx1 as usize };
        let lo_y: usize = if gy0 < 0 { 0 } else if gy0 > self.height as i128 { self.height } else { gy0 as usize };
        let hi_y: usize = if gy1 < lo_y as i128 { lo_y } else if gy1 > self.height as i128 { self.height } else { gy1 as usize };
        let mut cy: usize = lo_y;
        while cy < hi_y
            invariant
                self.wf(),
                self.same_frame(&before),
                lo_x <= hi_x <= self.width,
                lo_y <= cy <= hi_y <= self.height,
                forall|ax: int, ay: int| self.in_grid(ax, ay) ==> #[trigger] self.cell(ax, ay) == if lo_x <= ax < hi_x
                    && lo_y <= ay < cy {
                    if blend { merge(before.cell(ax, ay), c, before.crossings_view()) } else { c }
                } else {
                    before.cell(ax, ay)
                },
            decreases hi_y - cy,
        {
            let mut cx: usize = lo_x;
            while cx < hi_x
                invariant
                    self.wf(),
                    self.same_frame(&before),
                    lo_x <= cx <= hi_x <= self.width,
                    lo_y <= cy < hi_y <= self.height,
                    forall|ax: int, ay: int| self.in_grid(ax, ay) ==> #[trigger] self.cell(ax, ay) == if (lo_x <= ax
                        < hi_x && lo_y <= ay < cy) || (lo_x <= ax < cx && ay == cy) {
                        if blend { merge(before.cell(ax, ay), c, before.crossings_view()) } else { c }
                    } else {
                        before.cell(ax, ay)
                    },
                decreases hi_x - cx,
            {
                self.write(cx, cy, c, blend);
                cx += 1;
            }
            cy += 1;
        }
    }
    /// Fills every cell of the rectangle at diagram point (x, y), `w` wide and
    /// `h` high, with `c`. Only the part of it that the grid shows is touched.
    pub fn fill_rect(&mut self, x: i64, y: i64, w: usize, h: usize, c: Cell)
        requires
            old(self).wf(),
        ensures
            final(self).wf(),
            final(self).same_frame(old(self)),
            forall|cx: int, cy: int| final(self).in_grid(cx, cy) ==> #[trigger] final(self).cell(cx, cy) == if x <= cx
                + old(self).scroll_x_view() < x + w && y <= cy + old(self).scroll_y_view() < y + h {
                c
            } else {
                old(self).cell(cx, cy)
            },
    {
        self.paint(x, y, w, h, c, false);
    }

    /// Draws a connection run of `len` cells rightwards from diagram point
    /// (x, y); where it meets another connection glyph the crossing rule applies.
    pub fn draw_hline(&mut self, x: i64, y: i64, len: usize, glyph: char)
        requires
            old(self).wf(),
        ensures
            final(self).wf(),
            final(self).same_frame(old(self)),
            forall|cx: int, cy: int| final(self).in_grid(cx, cy) ==> #[trigger] final(self).cell(cx, cy) == if x <= cx
                + old(self).scroll_x_view() < x + len && cy + old(self).scroll_y_view() == y {
                merge(old(self).cell(cx, cy), Cell { glyph, kind: CellKind::Line }, old(self).crossings_view())
            } else {
                old(self).cell(cx, cy)
            },
    {
        self.paint(x, y, len, 1, Cell { glyph, kind: CellKind::Line }, true);
    }

    /// Draws a connection run of `len` cells downwards from diagram point (x, y).
    pub fn draw_vline(&mut self, x: i64, y: i64, len: usize, glyph: char)
        requires
            old(self).wf(),
        ensures
            final(self).wf(),
            final(self).same_frame(old(self)),
            forall|cx: int, cy: int| final(self).in_grid(cx, cy) ==> #[trigger] final(self).cell(cx, cy) == if cx
                + old(self).scroll_x_view() == x && y <= cy + old(self).scroll_y_view() < y + len {
                merge(old(self).cell(cx, cy), Cell { glyph, kind: CellKind::Line }, old(self).crossings_view())
            } else {
                old(self).cell(cx, cy)
            },
    {
        self.paint(x, y, 1, len, Cell { glyph, kind: CellKind::Line }, true);
    }

    /// Writes one glyph of kind `kind` at diagram point (x, y), if the grid shows it.
    pub fn put(&mut self, x: i64, y: i64, glyph: char, kind: CellKind)
        requires
            old(self).wf(),
        ensures
            final(self).wf(),
            final(self).same_frame(old(self)),
            forall|cx: int, cy: int| final(self).in_grid(cx, cy) ==> #[trigger] final(self).cell(cx, cy) == if cx
                + old(self).scroll_x_view() == x && cy + old(self).scroll_y_view() == y {
                merge(old(self).cell(cx, cy), Cell { glyph, kind }, old(self).crossings_view())
            } else {
                old(self).cell(cx, cy)
            },
    {
        self.paint(x, y, 1, 1, Cell { glyph, kind }, true);
    }
}

} // verus!

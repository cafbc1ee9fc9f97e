use vstd::prelude::*;
use crate::diagram::{box_cell, col_top, gap_width, lemma_col_x_grows, Diagram, BOX_WIDTH, EXTENT_LIMIT, MARGIN};
use crate::grid::blank;
use crate::graph::NO_CONNECTION;
use crate::grid::{Cell, CellKind, OverdrawBuffer};
use crate::viewport::{span_width, visible_column_count, ViewState};

verus! {

/// Glyph of a horizontal connection run.
pub const HORIZONTAL: char = '\u{2500}';
/// Glyph of a vertical connection run.
pub const VERTICAL: char = '\u{2502}';
/// Marker where a connection continues beyond the visible region.
pub const CONTINUES: char = '>';

/// What a boundary block is drawn with.
pub open spec fn block_cell() -> Cell {
    Cell { glyph: ' ', kind: CellKind::Fill(1) }
}

/// A continuation marker.
pub open spec fn marker_cell() -> Cell {
    Cell { glyph: CONTINUES, kind: CellKind::Text }
}

/// Position of the first point at or right of `hi`, from `i` on; `pts.len()` if none.
pub open spec fn cut_index(pts: Seq<(i64, i64)>, hi: i64, i: int) -> int
    decreases pts.len() - i,
{
    if i >= pts.len() {
        pts.len() as int
    } else if pts[i].0 >= hi {
        i
    } else {
        cut_index(pts, hi, i + 1)
    }
}

/// A route whose x never decreases, cut where it reaches `hi`: the points
/// before that, then the last visible cell of the run that crosses, and
/// whether anything was cut.
pub open spec fn cut_route_spec(pts: Seq<(i64, i64)>, hi: i64) -> (Seq<(i64, i64)>, bool) {
    let m = cut_index(pts, hi, 0);
    if m == pts.len() {
        (pts, false)
    } else if m == 0 {
        (Seq::empty(), true)
    } else {
        (pts.take(m).push(((hi - 1) as i64, pts[m - 1].1)), true)
    }
}

/// Cuts a route at the right edge `hi` of the visible region.
pub fn cut_route(pts: &Vec<(i64, i64)>, hi: i64) -> (r: (Vec<(i64, i64)>, bool))
    requires
        hi > i64::MIN,
    ensures
        r.0@ == cut_route_spec(pts@, hi).0,
        r.1 == cut_route_spec(pts@, hi).1,
{
    let mut out: Vec<(i64, i64)> = Vec::new();
    let mut i: usize = 0;
    while i < pts.len()
        invariant
            i <= pts@.len(),
            cut_index(pts@, hi, 0) == cut_index(pts@, hi, i as int),
            out@ == pts@.take(i as int),
        decreases pts@.len() - i,
    {
        if pts[i].0 >= hi {
            if i == 0 {
                return (Vec::new(), true);
            }
            let y = pts[i - 1].1;
            out.push((hi - 1, y));
            return (out, true);
        }
        out.push(pts[i]);
        assert(pts@.take(i as int + 1) =~= pts@.take(i as int).push(pts@[i as int]));
        i += 1;
    }
    assert(pts@.take(pts@.len() as int) =~= pts@);
    (out, false)
}

/// Counts columns from `off + k` on while the widths so far still fit in `room`.
pub open spec fn fit_from(ws: Seq<usize>, off: int, room: int, k: nat) -> nat
    decreases ws.len() - off - k,
{
    if off + k < ws.len() && span_width(ws, off, k as int + 1) <= room {
        fit_from(ws, off, room, (k + 1) as nat)
    } else {
        k
    }
}

/// The greedy count is the only one that fits and is followed by no column that fits.
pub proof fn lemma_fit_from(ws: Seq<usize>, off: int, room: int, vis: int, j: int)
    requires
        0 <= j <= vis,
        0 <= off,
        off + vis <= ws.len(),
        span_width(ws, off, vis) <= room,
        off + vis < ws.len() ==> span_width(ws, off, vis + 1) > room,
    ensures
        fit_from(ws, off, room, j as nat) == vis,
    decreases vis - j,
{
    if j < vis {
        lemma_fit_from(ws, off, room, vis, j + 1);
        lemma_span_grows(ws, off, j + 1, vis);
    }
}

/// `v` lies on the way from `from` to `to`, with `to` itself only when `closed`.
pub open spec fn span_has(from: i64, to: i64, v: int, closed: bool) -> bool {
    if from <= to {
        from <= v && (v < to || (closed && v == to))
    } else {
        to <= v <= from && (v > to || closed)
    }
}

/// Diagram point (wx, wy) lies on run `i` of a polyline: the cells from point
/// `i - 1` towards point `i`, which itself belongs to the next run (or to this
/// one, for the last run).
pub open spec fn on_run(pts: Seq<(i64, i64)>, i: int, wx: int, wy: int) -> bool {
    &&& 0 < i < pts.len()
    &&& if pts[i - 1].1 == pts[i].1 {
        wy == pts[i].1 && span_has(pts[i - 1].0, pts[i].0, wx, i == pts.len() - 1)
    } else if pts[i - 1].0 == pts[i].0 {
        wx == pts[i].0 && span_has(pts[i - 1].1, pts[i].1, wy, i == pts.len() - 1)
    } else {
        false
    }
}

/// The cells of a span as a start and a length.
fn span_cells(from: i64, to: i64, closed: bool) -> (r: (i64, usize))
    requires
        0 <= from <= 4 * EXTENT_LIMIT,
        0 <= to <= 4 * EXTENT_LIMIT,
    ensures
        forall|v: int| span_has(from, to, v, closed) <==> r.0 <= v < r.0 + r.1,
        r.0 >= 0,
        r.0 >= from || r.0 >= to,
        r.0 + r.1 <= from + 1 || r.0 + r.1 <= to + 1,
        r.0 >= (if from <= to { from } else { to }),
        r.0 + r.1 <= (if from <= to { to } else { from }) + 1,
{
    if from <= to {
        (from, (to - from + if closed { 1i64 } else { 0i64 }) as usize)
    } else if closed {
        (to, (from - to + 1) as usize)
    } else {
        (to + 1, (from - to) as usize)
    }
}

/// Diagram column `wx` lies right of every point of `pts`.
pub open spec fn right_of_all(pts: Seq<(i64, i64)>, wx: int) -> bool {
    forall|i: int| 0 <= i < pts.len() ==> #[trigger] pts[i].0 < wx
}

/// Draws the axis-aligned runs between consecutive points. Each run leaves
/// its end point to the next run, so no cell of one polyline is drawn twice
/// and only another line meeting it makes a crossing.
pub(crate) fn draw_polyline(buf: &mut OverdrawBuffer, pts: &Vec<(i64, i64)>)
    requires
        old(buf).wf(),
        forall|i: int| 0 <= i < pts@.len() ==> 0 <= #[trigger] pts@[i].0 <= 4 * EXTENT_LIMIT && 0 <= pts@[i].1
            <= 4 * EXTENT_LIMIT,
    ensures
        final(buf).wf(),
        final(buf).same_frame(old(buf)),
        forall|cx: int, cy: int| final(buf).in_grid(cx, cy) && right_of_all(pts@, cx + old(buf).scroll_x_view())
            ==> #[trigger] final(buf).cell(cx, cy) == old(buf).cell(cx, cy),
        forall|cx: int, cy: int| final(buf).in_grid(cx, cy) ==> #[trigger] final(buf).cell(cx, cy) == old(buf).cell(cx, cy)
            || (final(buf).cell(cx, cy).kind == CellKind::Line && exists|i: int|
                #[trigger] on_run(pts@, i, cx + old(buf).scroll_x_view(), cy + old(buf).scroll_y_view())),
        forall|i: int, cx: int, cy: int|
            #![trigger final(buf).cell(cx, cy), on_run(pts@, i, cx + old(buf).scroll_x_view(), cy + old(buf).scroll_y_view())]
            final(buf).in_grid(cx, cy) && on_run(pts@, i, cx + old(buf).scroll_x_view(), cy + old(buf).scroll_y_view())
            ==> final(buf).cell(cx, cy).kind == CellKind::Line,
{
    let mut i: usize = 1;
    while i < pts.len()
        invariant
            1 <= i,
            buf.wf(),
            buf.same_frame(old(buf)),
            forall|cx: int, cy: int| buf.in_grid(cx, cy) && right_of_all(pts@, cx + old(buf).scroll_x_view())
                ==> #[trigger] buf.cell(cx, cy) == old(buf).cell(cx, cy),
            forall|cx: int, cy: int| buf.in_grid(cx, cy) ==> #[trigger] buf.cell(cx, cy) == old(buf).cell(cx, cy)
                || (buf.cell(cx, cy).kind == CellKind::Line && exists|j: int|
                    #[trigger] on_run(pts@, j, cx + old(buf).scroll_x_view(), cy + old(buf).scroll_y_view())),
            forall|j: int, cx: int, cy: int|
                #![trigger buf.cell(cx, cy), on_run(pts@, j, cx + old(buf).scroll_x_view(), cy + old(buf).scroll_y_view())]
                j < i && buf.in_grid(cx, cy) && on_run(pts@, j, cx + old(buf).scroll_x_view(), cy + old(buf).scroll_y_view())
                ==> buf.cell(cx, cy).kind == CellKind::Line,
            forall|i: int| 0 <= i < pts@.len() ==> 0 <= #[trigger] pts@[i].0 <= 4 * EXTENT_LIMIT && 0 <= pts@[i].1
                <= 4 * EXTENT_LIMIT,
        decreases pts@.len() - i,
    {
        let (ax, ay) = pts[i - 1];
        let (bx, by) = pts[i];
        let ghost prev = *buf;
        proof {
            assert forall|cx: int, cy: int| prev.in_grid(cx, cy) && right_of_all(pts@, cx + old(buf).scroll_x_view())
                implies ax < cx + prev.scroll_x_view() && bx < cx + prev.scroll_x_view() by {
                assert(pts@[i - 1].0 < cx + old(buf).scroll_x_view());
                assert(pts@[i as int].0 < cx + old(buf).scroll_x_view());
            }
        }
        let last = i == pts.len() - 1;
        if ay == by {
            let (st, len) = span_cells(ax, bx, last);
            buf.draw_hline(st, ay, len, HORIZONTAL);
        } else if ax == bx {
            let (st, len) = span_cells(ay, by, last);
            buf.draw_vline(ax, st, len, VERTICAL);
        }
        proof {
            assert forall|cx: int, cy: int| buf.in_grid(cx, cy) implies #[trigger] buf.cell(cx, cy) == old(buf).cell(cx, cy)
                || (buf.cell(cx, cy).kind == CellKind::Line && exists|j: int|
                    #[trigger] on_run(pts@, j, cx + old(buf).scroll_x_view(), cy + old(buf).scroll_y_view())) by {
                assert(prev.in_grid(cx, cy));
                if buf.cell(cx, cy) != prev.cell(cx, cy) {
                    assert(on_run(pts@, i as int, cx + old(buf).scroll_x_view(), cy + old(buf).scroll_y_view()));
                }
            }
            assert forall|j: int, cx: int, cy: int|
                #![trigger buf.cell(cx, cy), on_run(pts@, j, cx + old(buf).scroll_x_view(), cy + old(buf).scroll_y_view())]
                j < i + 1 && buf.in_grid(cx, cy) && on_run(pts@, j, cx + old(buf).scroll_x_view(), cy + old(buf).scroll_y_view())
                implies buf.cell(cx, cy).kind == CellKind::Line by {
                assert(prev.in_grid(cx, cy));
                if j < i {
                    assert(prev.cell(cx, cy).kind == CellKind::Line);
                }
            }
        }
        i += 1;
    }
}

impl Diagram {
    /// The column shown leftmost: the column offset counts from the deepest
    /// column, and stops at column 0.
    pub open spec fn first_shown(&self, view: ViewState) -> int {
        let n = self.columns_view().len() as int;
        if view.col_offset < n { n - 1 - view.col_offset } else { 0 }
    }

    /// Column `c` is shown whole: it is the first shown column or right of
    /// it, and the shown columns up to it fit beside the left margin.
    pub open spec fn shown(&self, view: ViewState, width: usize, c: int) -> bool {
        let first = self.first_shown(view);
        let room = if width > MARGIN { width - MARGIN } else { 0 };
        &&& 0 <= c <= first
        &&& c < self.columns_view().len()
        &&& span_width(self.display_widths(), self.columns_view().len() - 1 - first, first - c + 1) <= room
    }

    /// Route `k` as a sequence of grid-sized points.
    pub open spec fn route_seq(&self, k: int) -> Seq<(i64, i64)> {
        let rp = self.route_points(k);
        Seq::new(rp.len(), |i: int| (rp[i].0 as i64, rp[i].1 as i64))
    }

    /// The part of route `k` that is drawn, and whether it was cut.
    pub open spec fn kept(&self, view: ViewState, width: usize, k: int) -> (Seq<(i64, i64)>, bool) {
        cut_route_spec(self.route_seq(k), self.visible_end(view, width) as i64)
    }

    /// Diagram point (wx, wy) lies on run `i` of the kept part of route `k`.
    pub open spec fn on_kept_run(&self, view: ViewState, width: usize, k: int, i: int, wx: int, wy: int) -> bool {
        on_run(self.kept(view, width, k).0, i, wx, wy)
    }

    /// Route `k` ends in a continuation marker: it was cut at the visible end,
    /// or its target column is not shown.
    pub open spec fn marked(&self, view: ViewState, width: usize, k: int) -> bool {
        let kept = self.kept(view, width, k);
        &&& kept.0.len() > 0
        &&& kept.1 || self.first_shown(view) - self.depths_view()[self.conns_view()[k].consumer as int]
            >= self.shown_count(view, width)
    }

    pub open spec fn mark_x(&self, view: ViewState, width: usize, k: int) -> int {
        self.kept(view, width, k).0.last().0 as int
    }

    pub open spec fn mark_y(&self, view: ViewState, width: usize, k: int) -> int {
        self.kept(view, width, k).0.last().1 as int
    }

    /// Diagram point (wx, wy) lies in a boundary block in view: the input
    /// block left of the deepest column when it is shown, the output block
    /// right of column 0 when every column is shown.
    pub open spec fn in_block(&self, view: ViewState, width: usize, wx: int, wy: int) -> bool {
        let n = self.columns_view().len() as int;
        let first = self.first_shown(view);
        &&& n > 0
        &&& 0 <= wy < self.clear_row()
        &&& (first == n - 1 && self.x_of(n - 1) - MARGIN + 1 <= wx < self.x_of(n - 1) - MARGIN + 3)
            || (self.shown_count(view, width) == first + 1 && self.x_of(0) + BOX_WIDTH + 1 <= wx < self.x_of(0) + BOX_WIDTH + 3)
    }

    /// Output boundary entry `k` as a run of grid-sized points.
    pub open spec fn out_seq(&self, k: int) -> Seq<(i64, i64)> {
        let e = self.outputs_view()[k];
        let rp = self.output_route_points(self.root_pos(e.0), e.1 as int);
        Seq::new(rp.len(), |i: int| (rp[i].0 as i64, rp[i].1 as i64))
    }

    /// Input boundary entry `k` as a run of grid-sized points.
    pub open spec fn in_seq(&self, k: int) -> Seq<(i64, i64)> {
        let e = self.inputs_view()[k];
        let rp = self.input_route_points(self.root_pos(e.0), e.1 as int);
        Seq::new(rp.len(), |i: int| (rp[i].0 as i64, rp[i].1 as i64))
    }

    pub open spec fn out_kept(&self, view: ViewState, width: usize, k: int) -> (Seq<(i64, i64)>, bool) {
        cut_route_spec(self.out_seq(k), self.visible_end(view, width) as i64)
    }

    pub open spec fn in_kept(&self, view: ViewState, width: usize, k: int) -> (Seq<(i64, i64)>, bool) {
        cut_route_spec(self.in_seq(k), self.visible_end(view, width) as i64)
    }

    /// Output run `k` is cut at the visible end and ends in a marker.
    pub open spec fn out_marked(&self, view: ViewState, width: usize, k: int) -> bool {
        self.out_kept(view, width, k).1 && self.out_kept(view, width, k).0.len() > 0
    }

    /// Input run `k` is cut at the visible end and ends in a marker.
    pub open spec fn in_marked(&self, view: ViewState, width: usize, k: int) -> bool {
        self.in_kept(view, width, k).1 && self.in_kept(view, width, k).0.len() > 0
    }

    /// Diagram point (wx, wy) is covered by something the view draws: a box of
    /// a shown column, a boundary block, a kept run of a connection or of a
    /// boundary entry, or the marker that ends one.
    pub open spec fn covered(&self, view: ViewState, width: usize, wx: int, wy: int) -> bool {
        let outs = self.outputs_view();
        let ins = self.inputs_view();
        ||| self.in_shown_box(view, width, wx, wy)
        ||| self.in_block(view, width, wx, wy)
        ||| exists|k: int, i: int| 0 <= k < self.conns_view().len() && #[trigger] self.on_kept_run(view, width, k, i, wx, wy)
        ||| exists|k: int| 0 <= k < self.conns_view().len() && #[trigger] self.marked(view, width, k)
            && wx == self.mark_x(view, width, k) && wy == self.mark_y(view, width, k)
        ||| exists|k: int, i: int| 0 <= k < outs.len() && outs[k].0 != NO_CONNECTION
            && #[trigger] on_run(self.out_kept(view, width, k).0, i, wx, wy)
        ||| exists|k: int| 0 <= k < outs.len() && outs[k].0 != NO_CONNECTION && #[trigger] self.out_marked(view, width, k)
            && wx == self.out_kept(view, width, k).0.last().0 && wy == self.out_kept(view, width, k).0.last().1
        ||| exists|k: int, i: int| 0 <= k < ins.len() && ins[k].0 != NO_CONNECTION
            && #[trigger] on_run(self.in_kept(view, width, k).0, i, wx, wy)
        ||| exists|k: int| 0 <= k < ins.len() && ins[k].0 != NO_CONNECTION && #[trigger] self.in_marked(view, width, k)
            && wx == self.in_kept(view, width, k).0.last().0 && wy == self.in_kept(view, width, k).0.last().1
    }

    /// Diagram point (wx, wy) lies in a box of a shown column.
    pub open spec fn in_shown_box(&self, view: ViewState, width: usize, wx: int, wy: int) -> bool {
        exists|c: int, p: int| self.shown(view, width, c) && 0 <= p < self.columns_view()[c]@.len()
            && #[trigger] self.in_box(c, p, wx, wy)
    }

    /// Rows taken by the tallest of the `k` columns from `c` rightwards.
    pub open spec fn tallest_from(&self, c: int, k: int) -> nat
        decreases k,
    {
        if k <= 0 {
            0
        } else {
            let col = self.columns_view()[c - k + 1]@;
            let h = col_top(self.graph_view(), col, col.len() as int);
            let m = self.tallest_from(c, k - 1);
            if h > m { h } else { m }
        }
    }

    /// Rows taken by the tallest shown column: the bound of the row offset.
    pub open spec fn shown_rows(&self, view: ViewState, width: usize) -> nat {
        if self.columns_view().len() == 0 {
            0
        } else {
            self.tallest_from(self.first_shown(view), self.shown_count(view, width) as int)
        }
    }

    /// Rows taken by the tallest column that the view shows whole.
    pub fn max_shown_rows(&self, view: ViewState, width: usize) -> (r: usize)
        requires
            self.wf(),
        ensures
            r == self.shown_rows(view, width),
    {
        let n = self.column_count();
        if n == 0 {
            return 0;
        }
        let offset = if view.col_offset < n { view.col_offset } else { n - 1 };
        let widths = self.column_widths();
        let room = if width > MARGIN { width - MARGIN } else { 0 };
        let vis = visible_column_count(&widths, offset, room);
        proof {
            lemma_fit_from(widths@, offset as int, room as int, vis as int, 0);
        }
        let first = n - 1 - offset;
        let mut m: usize = 0;
        let mut k: usize = 0;
        while k < vis
            invariant
                self.wf(),
                n == self.columns_view().len(),
                first == n - 1 - offset,
                first == self.first_shown(view),
                offset + vis <= n,
                vis == self.shown_count(view, width),
                k <= vis,
                m == self.tallest_from(first as int, k as int),
            decreases vis - k,
        {
            let h = self.column_height(first - k);
            if h > m {
                m = h;
            }
            k += 1;
        }
        m
    }

    /// How many whole columns fit from the first shown one: the most that fit.
    pub open spec fn shown_count(&self, view: ViewState, width: usize) -> nat {
        let room = if width > MARGIN { width - MARGIN } else { 0 };
        fit_from(self.display_widths(), self.columns_view().len() - 1 - self.first_shown(view), room as int, 0)
    }

    /// The diagram column where the region of whole shown columns, with their
    /// gaps, ends: nothing is drawn at or right of it.
    pub open spec fn visible_end(&self, view: ViewState, width: usize) -> int {
        self.x_of(self.first_shown(view)) + span_width(self.display_widths(),
            self.columns_view().len() - 1 - self.first_shown(view), self.shown_count(view, width) as int)
    }

    /// Left edges fall from the deepest column to column 0: a column right of
    /// another starts at least a box and a gap later.
    proof fn lemma_x_order(&self, c1: int, c2: int)
        requires
            0 <= c1 < c2 < self.columns_view().len(),
        ensures
            self.x_of(c1) >= self.x_of(c2) + BOX_WIDTH + 3,
        decreases c2 - c1,
    {
        if c1 + 1 < c2 {
            self.lemma_x_order(c1 + 1, c2);
        }
    }

    /// Summing the display widths from the first shown column reaches the left
    /// edge of the column `k` places right of it.
    proof fn lemma_telescope(&self, view: ViewState, k: int)
        requires
            self.wf(),
            self.columns_view().len() > 0,
            0 <= k <= self.first_shown(view) + 1,
        ensures
            k <= self.first_shown(view) ==> self.x_of(self.first_shown(view)) + span_width(self.display_widths(),
                self.columns_view().len() - 1 - self.first_shown(view), k) == self.x_of(self.first_shown(view) - k),
            k == self.first_shown(view) + 1 ==> self.x_of(self.first_shown(view)) + span_width(self.display_widths(),
                self.columns_view().len() - 1 - self.first_shown(view), k) == self.x_of(0) + BOX_WIDTH + MARGIN,
        decreases k,
    {
        let first = self.first_shown(view);
        let n = self.columns_view().len() as int;
        let off = n - 1 - first;
        if k > 0 {
            self.lemma_telescope(view, k - 1);
            let c = first - (k - 1);
            self.lemma_wf_layout();
            lemma_col_x_grows(self.conns_view(), self.depths_view(), n, if c > 0 { c - 1 } else { 0 });
            if c > 0 {
                assert(self.x_of(c - 1) == self.x_of(c) + BOX_WIDTH + gap_width(self.conns_view(), self.depths_view(), c - 1));
            }
            assert(self.display_widths()[off + k - 1] as int == self.display_width(off + k - 1));
        }
    }

    /// Draws the view into a fresh grid of `width` by `height` cells: every
    /// connection, cut where it runs past the last whole column and ending in
    /// a marker where it was cut or its target column is out of view; the runs
    /// to and from the boundaries, cut the same way; the boundary markers in view; and last the boxes of the whole columns that
    /// fit from the view's column offset, drawn complete.
    #[verifier::rlimit(100)]
    pub fn render(&self, view: ViewState, width: usize, height: usize) -> (buf: OverdrawBuffer)
        requires
            self.wf(),
            width <= EXTENT_LIMIT,
            height <= EXTENT_LIMIT,
            width * height <= usize::MAX,
        ensures
            buf.wf(),
            buf.width_view() == width,
            buf.height_view() == height,
            buf.scroll_y_view() == if view.row_offset <= self.clear_row() { view.row_offset as int } else { self.clear_row() },
            self.columns_view().len() > 0 ==> buf.scroll_x_view() == self.x_of(self.first_shown(view)) - MARGIN,
            forall|cx: int, cy: int, c: int, p: int|
                #![trigger buf.cell(cx, cy), self.in_box(c, p, cx + buf.scroll_x_view(), cy + buf.scroll_y_view())]
                buf.in_grid(cx, cy) && self.shown(view, width, c) && 0 <= p < self.columns_view()[c]@.len()
                && self.in_box(c, p, cx + buf.scroll_x_view(), cy + buf.scroll_y_view()) ==> buf.cell(cx, cy) == box_cell(),
            forall|cx: int, cy: int| buf.in_grid(cx, cy) && cx + buf.scroll_x_view() >= self.visible_end(view, width)
                ==> #[trigger] buf.cell(cx, cy) == blank(),
            forall|c: int| 0 <= c <= self.first_shown(view) && c < self.columns_view().len() && !#[trigger] self.shown(view, width, c)
                ==> self.x_of(c) >= self.visible_end(view, width),
            forall|k: int, cx: int, cy: int|
                #![trigger buf.cell(cx, cy), self.marked(view, width, k)]
                0 <= k < self.conns_view().len() && self.marked(view, width, k) && buf.in_grid(cx, cy)
                && cx + buf.scroll_x_view() == self.mark_x(view, width, k) && cy + buf.scroll_y_view() == self.mark_y(view, width, k)
                && !self.in_shown_box(view, width, cx + buf.scroll_x_view(), cy + buf.scroll_y_view())
                && !self.in_block(view, width, cx + buf.scroll_x_view(), cy + buf.scroll_y_view())
                ==> buf.cell(cx, cy) == marker_cell(),
            forall|cx: int, cy: int| buf.in_grid(cx, cy) && self.in_block(view, width, cx + buf.scroll_x_view(), cy
                + buf.scroll_y_view()) ==> #[trigger] buf.cell(cx, cy) == block_cell(),
            forall|k: int, i: int, cx: int, cy: int|
                #![trigger buf.cell(cx, cy), self.on_kept_run(view, width, k, i, cx + buf.scroll_x_view(), cy + buf.scroll_y_view())]
                0 <= k < self.conns_view().len() && buf.in_grid(cx, cy)
                && self.on_kept_run(view, width, k, i, cx + buf.scroll_x_view(), cy + buf.scroll_y_view())
                && !self.in_shown_box(view, width, cx + buf.scroll_x_view(), cy + buf.scroll_y_view())
                && !self.in_block(view, width, cx + buf.scroll_x_view(), cy + buf.scroll_y_view())
                ==> buf.cell(cx, cy).kind == CellKind::Line || buf.cell(cx, cy).kind == CellKind::Text,
            forall|cx: int, cy: int| buf.in_grid(cx, cy) ==> #[trigger] buf.cell(cx, cy) == blank()
                || self.covered(view, width, cx + buf.scroll_x_view(), cy + buf.scroll_y_view()),
    {
        let clear = self.clear_height();
        let row: usize = if view.row_offset <= clear { view.row_offset } else { clear };
        let n = self.column_count();
        if n == 0 {
            proof {
                self.lemma_wf_layout();
                if self.conns_view().len() > 0 {
                    assert(crate::diagram::conn_valid(self.graph_view(), self.conns_view()[0]));
                }
            }
            return OverdrawBuffer::new(width, height, 0, row as i64, true);
        }
        let offset = if view.col_offset < n { view.col_offset } else { n - 1 };
        let widths = self.column_widths();
        let room = if width > MARGIN { width - MARGIN } else { 0 };
        let vis = visible_column_count(&widths, offset, room);
        let first_x = self.column_x(n - 1 - offset);
        let scroll_x = first_x as i64 - MARGIN as i64;
        let mut buf = OverdrawBuffer::new(width, height, scroll_x, row as i64, true);
        let mut used: usize = 0;
        let mut k: usize = 0;
        while k < vis
            invariant
                widths@.len() == n,
                offset + vis <= n,
                k <= vis,
                used == span_width(widths@, offset as int, k as int),
                span_width(widths@, offset as int, vis as int) <= room,
            decreases vis - k,
        {
            proof {
                lemma_span_grows(widths@, offset as int, k as int + 1, vis as int);
            }
            used = used + widths[offset + k];
            k += 1;
        }
        let hi: i64 = first_x as i64 + used as i64;
        let ghost first = self.first_shown(view);
        proof {
            assert(widths@ == self.display_widths());
            lemma_fit_from(widths@, offset as int, room as int, vis as int, 0);
            assert(first == n - 1 - offset);
            self.lemma_telescope(view, vis as int);
            assert(hi == self.visible_end(view, width));
            lemma_span_grows(widths@, offset as int, 0, vis as int);
        }
        let m = self.connection_count();
        let mut c: usize = 0;
        while c < m
            invariant
                self.wf(),
                m == self.conns_view().len(),
                n == self.columns_view().len(),
                offset + vis <= n,
                0 <= hi <= 2 * EXTENT_LIMIT,
                buf.wf(),
                buf.width_view() == width,
                buf.height_view() == height,
                buf.scroll_y_view() == row,
                buf.scroll_x_view() == scroll_x,
                forall|cx: int, cy: int| buf.in_grid(cx, cy) ==> #[trigger] buf.cell(cx, cy) == blank()
                    || self.covered(view, width, cx + scroll_x, cy + row),
                forall|cx: int, cy: int| buf.in_grid(cx, cy) && cx + scroll_x >= hi ==> #[trigger] buf.cell(cx, cy) == blank(),
                first == self.first_shown(view),
                first == n - 1 - offset,
                vis == self.shown_count(view, width),
                hi == self.visible_end(view, width),
                forall|k: int, i: int, cx: int, cy: int|
                    #![trigger buf.cell(cx, cy), self.on_kept_run(view, width, k, i, cx + scroll_x, cy + row)]
                    0 <= k < c && buf.in_grid(cx, cy) && self.on_kept_run(view, width, k, i, cx + scroll_x, cy + row)
                    && !self.in_shown_box(view, width, cx + scroll_x, cy + row) && !self.in_block(view, width, cx + scroll_x, cy + row)
                    ==> buf.cell(cx, cy).kind == CellKind::Line || buf.cell(cx, cy).kind == CellKind::Text,
            decreases m - c,
        {
            let pts = self.route(c);
            let (cut, marked) = cut_route(&pts, hi);
            proof {
                let rp = self.route_points(c as int);
                assert forall|i: int| 0 <= i < pts@.len() implies pts@[i] == #[trigger] self.route_seq(c as int)[i] by {
                    assert((pts@[i].0 as int, pts@[i].1 as int) == rp[i]);
                }
                assert(pts@ =~= self.route_seq(c as int));
                assert(hi as i64 == self.visible_end(view, width) as i64);
                lemma_cut_in_bounds(pts@, hi);
                assert forall|cx: int| cx + scroll_x >= hi implies #[trigger] right_of_all(cut@, cx + scroll_x) by {
                    assert forall|i: int| 0 <= i < cut@.len() implies #[trigger] cut@[i].0 < cx + scroll_x by {
                        assert(cut_route_spec(pts@, hi).0[i].0 < hi);
                    }
                }
            }
            let ghost prev = buf;
            draw_polyline(&mut buf, &cut);
            proof {
                assert forall|cx: int, cy: int| buf.in_grid(cx, cy) implies #[trigger] buf.cell(cx, cy) == blank()
                    || self.covered(view, width, cx + scroll_x, cy + row) by {
                    assert(prev.in_grid(cx, cy));
                    if buf.cell(cx, cy) != prev.cell(cx, cy) {
                        let i = choose|i: int| #[trigger] on_run(cut@, i, cx + scroll_x, cy + row);
                        assert(self.on_kept_run(view, width, c as int, i, cx + scroll_x, cy + row));
                    }
                }
                assert forall|k: int, i: int, cx: int, cy: int|
                    #![trigger buf.cell(cx, cy), self.on_kept_run(view, width, k, i, cx + scroll_x, cy + row)]
                    0 <= k < c + 1 && buf.in_grid(cx, cy) && self.on_kept_run(view, width, k, i, cx + scroll_x, cy + row)
                    && !self.in_shown_box(view, width, cx + scroll_x, cy + row) && !self.in_block(view, width, cx + scroll_x, cy + row)
                    implies buf.cell(cx, cy).kind == CellKind::Line || buf.cell(cx, cy).kind == CellKind::Text by {
                    assert(prev.in_grid(cx, cy));
                    if k < c {
                        assert(prev.cell(cx, cy).kind == CellKind::Line || prev.cell(cx, cy).kind == CellKind::Text);
                    } else {
                        assert(on_run(cut@, i, cx + scroll_x, cy + row));
                    }
                }
            }
            c += 1;
        }
        let mo = self.output_count();
        let mut k: usize = 0;
        while k < mo
            invariant
                self.wf(),
                mo == self.outputs_view().len(),
                0 <= hi <= 2 * EXTENT_LIMIT,
                buf.wf(),
                buf.width_view() == width,
                buf.height_view() == height,
                buf.scroll_y_view() == row,
                buf.scroll_x_view() == scroll_x,
                forall|cx: int, cy: int| buf.in_grid(cx, cy) ==> #[trigger] buf.cell(cx, cy) == blank()
                    || self.covered(view, width, cx + scroll_x, cy + row),
                forall|cx: int, cy: int| buf.in_grid(cx, cy) && cx + scroll_x >= hi ==> #[trigger] buf.cell(cx, cy) == blank(),
                first == self.first_shown(view),
                first == n - 1 - offset,
                vis == self.shown_count(view, width),
                hi == self.visible_end(view, width),
                forall|k: int, i: int, cx: int, cy: int|
                    #![trigger buf.cell(cx, cy), self.on_kept_run(view, width, k, i, cx + scroll_x, cy + row)]
                    0 <= k < m && buf.in_grid(cx, cy) && self.on_kept_run(view, width, k, i, cx + scroll_x, cy + row)
                    && !self.in_shown_box(view, width, cx + scroll_x, cy + row) && !self.in_block(view, width, cx + scroll_x, cy + row)
                    ==> buf.cell(cx, cy).kind == CellKind::Line || buf.cell(cx, cy).kind == CellKind::Text,
            decreases mo - k,
        {
            if let Some(pts) = self.output_route(k) {
                let (cut, marked) = cut_route(&pts, hi);
                proof {
                    let rp = self.output_route_points(self.root_pos(self.outputs_view()[k as int].0), self.outputs_view()[k as int].1 as int);
                    assert forall|i: int| 0 <= i < pts@.len() implies pts@[i] == #[trigger] self.out_seq(k as int)[i] by {
                        assert((pts@[i].0 as int, pts@[i].1 as int) == rp[i]);
                    }
                    assert(pts@ =~= self.out_seq(k as int));
                    assert(hi as i64 == self.visible_end(view, width) as i64);
                    lemma_cut_in_bounds(pts@, hi);
                    assert forall|cx: int| cx + scroll_x >= hi implies #[trigger] right_of_all(cut@, cx + scroll_x) by {
                        assert forall|i: int| 0 <= i < cut@.len() implies #[trigger] cut@[i].0 < cx + scroll_x by {
                            assert(cut_route_spec(pts@, hi).0[i].0 < hi);
                        }
                    }
                }
                let ghost prev = buf;
                draw_polyline(&mut buf, &cut);
                proof {
                    assert forall|cx: int, cy: int| buf.in_grid(cx, cy) implies #[trigger] buf.cell(cx, cy) == blank()
                        || self.covered(view, width, cx + scroll_x, cy + row) by {
                        assert(prev.in_grid(cx, cy));
                        if buf.cell(cx, cy) != prev.cell(cx, cy) {
                            let i = choose|i: int| #[trigger] on_run(cut@, i, cx + scroll_x, cy + row);
                            assert(on_run(self.out_kept(view, width, k as int).0, i, cx + scroll_x, cy + row));
                        }
                    }
                assert forall|k: int, i: int, cx: int, cy: int|
                    #![trigger buf.cell(cx, cy), self.on_kept_run(view, width, k, i, cx + scroll_x, cy + row)]
                    0 <= k < m && buf.in_grid(cx, cy) && self.on_kept_run(view, width, k, i, cx + scroll_x, cy + row)
                    && !self.in_shown_box(view, width, cx + scroll_x, cy + row) && !self.in_block(view, width, cx + scroll_x, cy + row)
                    implies buf.cell(cx, cy).kind == CellKind::Line || buf.cell(cx, cy).kind == CellKind::Text by {
                    assert(prev.in_grid(cx, cy));
                    assert(prev.cell(cx, cy).kind == CellKind::Line || prev.cell(cx, cy).kind == CellKind::Text);
                }
                }
                if marked && cut.len() > 0 {
                    let last = cut[cut.len() - 1];
                    assert(cut_route_spec(pts@, hi).0[cut@.len() - 1].0 < hi);
                    let ghost prev = buf;
                    buf.put(last.0, last.1, CONTINUES, CellKind::Text);
                    proof {
                        assert forall|cx: int, cy: int| buf.in_grid(cx, cy) implies #[trigger] buf.cell(cx, cy) == blank()
                            || self.covered(view, width, cx + scroll_x, cy + row) by {
                            assert(prev.in_grid(cx, cy));
                            if buf.cell(cx, cy) != prev.cell(cx, cy) {
                                assert(self.out_marked(view, width, k as int));
                            }
                        }
                assert forall|k: int, i: int, cx: int, cy: int|
                    #![trigger buf.cell(cx, cy), self.on_kept_run(view, width, k, i, cx + scroll_x, cy + row)]
                    0 <= k < m && buf.in_grid(cx, cy) && self.on_kept_run(view, width, k, i, cx + scroll_x, cy + row)
                    && !self.in_shown_box(view, width, cx + scroll_x, cy + row) && !self.in_block(view, width, cx + scroll_x, cy + row)
                    implies buf.cell(cx, cy).kind == CellKind::Line || buf.cell(cx, cy).kind == CellKind::Text by {
                    assert(prev.in_grid(cx, cy));
                        assert(prev.cell(cx, cy).kind == CellKind::Line || prev.cell(cx, cy).kind == CellKind::Text);
                }
                    }
                }
            }
            k += 1;
        }
        let mi = self.input_count();
        let mut k: usize = 0;
        while k < mi
            invariant
                self.wf(),
                mi == self.inputs_view().len(),
                0 <= hi <= 2 * EXTENT_LIMIT,
                buf.wf(),
                buf.width_view() == width,
                buf.height_view() == height,
                buf.scroll_y_view() == row,
                buf.scroll_x_view() == scroll_x,
                forall|cx: int, cy: int| buf.in_grid(cx, cy) ==> #[trigger] buf.cell(cx, cy) == blank()
                    || self.covered(view, width, cx + scroll_x, cy + row),
                forall|cx: int, cy: int| buf.in_grid(cx, cy) && cx + scroll_x >= hi ==> #[trigger] buf.cell(cx, cy) == blank(),
                first == self.first_shown(view),
                first == n - 1 - offset,
                vis == self.shown_count(view, width),
                hi == self.visible_end(view, width),
                forall|k: int, i: int, cx: int, cy: int|
                    #![trigger buf.cell(cx, cy), self.on_kept_run(view, width, k, i, cx + scroll_x, cy + row)]
                    0 <= k < m && buf.in_grid(cx, cy) && self.on_kept_run(view, width, k, i, cx + scroll_x, cy + row)
                    && !self.in_shown_box(view, width, cx + scroll_x, cy + row) && !self.in_block(view, width, cx + scroll_x, cy + row)
                    ==> buf.cell(cx, cy).kind == CellKind::Line || buf.cell(cx, cy).kind == CellKind::Text,
            decreases mi - k,
        {
            if let Some(pts) = self.input_route(k) {
                let (cut, marked) = cut_route(&pts, hi);
                proof {
                    let rp = self.input_route_points(self.root_pos(self.inputs_view()[k as int].0), self.inputs_view()[k as int].1 as int);
                    assert forall|i: int| 0 <= i < pts@.len() implies pts@[i] == #[trigger] self.in_seq(k as int)[i] by {
                        assert((pts@[i].0 as int, pts@[i].1 as int) == rp[i]);
                    }
                    assert(pts@ =~= self.in_seq(k as int));
                    assert(hi as i64 == self.visible_end(view, width) as i64);
                    lemma_cut_in_bounds(pts@, hi);
                    assert forall|cx: int| cx + scroll_x >= hi implies #[trigger] right_of_all(cut@, cx + scroll_x) by {
                        assert forall|i: int| 0 <= i < cut@.len() implies #[trigger] cut@[i].0 < cx + scroll_x by {
                            assert(cut_route_spec(pts@, hi).0[i].0 < hi);
                        }
                    }
                }
                let ghost prev = buf;
                draw_polyline(&mut buf, &cut);
                proof {
                    assert forall|cx: int, cy: int| buf.in_grid(cx, cy) implies #[trigger] buf.cell(cx, cy) == blank()
                        || self.covered(view, width, cx + scroll_x, cy + row) by {
                        assert(prev.in_grid(cx, cy));
                        if buf.cell(cx, cy) != prev.cell(cx, cy) {
                            let i = choose|i: int| #[trigger] on_run(cut@, i, cx + scroll_x, cy + row);
                            assert(on_run(self.in_kept(view, width, k as int).0, i, cx + scroll_x, cy + row));
                        }
                    }
                assert forall|k: int, i: int, cx: int, cy: int|
                    #![trigger buf.cell(cx, cy), self.on_kept_run(view, width, k, i, cx + scroll_x, cy + row)]
                    0 <= k < m && buf.in_grid(cx, cy) && self.on_kept_run(view, width, k, i, cx + scroll_x, cy + row)
                    && !self.in_shown_box(view, width, cx + scroll_x, cy + row) && !self.in_block(view, width, cx + scroll_x, cy + row)
                    implies buf.cell(cx, cy).kind == CellKind::Line || buf.cell(cx, cy).kind == CellKind::Text by {
                    assert(prev.in_grid(cx, cy));
                    assert(prev.cell(cx, cy).kind == CellKind::Line || prev.cell(cx, cy).kind == CellKind::Text);
                }
                }
                if marked && cut.len() > 0 {
                    let last = cut[cut.len() - 1];
                    assert(cut_route_spec(pts@, hi).0[cut@.len() - 1].0 < hi);
                    let ghost prev = buf;
                    buf.put(last.0, last.1, CONTINUES, CellKind::Text);
                    proof {
                        assert forall|cx: int, cy: int| buf.in_grid(cx, cy) implies #[trigger] buf.cell(cx, cy) == blank()
                            || self.covered(view, width, cx + scroll_x, cy + row) by {
                            assert(prev.in_grid(cx, cy));
                            if buf.cell(cx, cy) != prev.cell(cx, cy) {
                                assert(self.in_marked(view, width, k as int));
                            }
                        }
                assert forall|k: int, i: int, cx: int, cy: int|
                    #![trigger buf.cell(cx, cy), self.on_kept_run(view, width, k, i, cx + scroll_x, cy + row)]
                    0 <= k < m && buf.in_grid(cx, cy) && self.on_kept_run(view, width, k, i, cx + scroll_x, cy + row)
                    && !self.in_shown_box(view, width, cx + scroll_x, cy + row) && !self.in_block(view, width, cx + scroll_x, cy + row)
                    implies buf.cell(cx, cy).kind == CellKind::Line || buf.cell(cx, cy).kind == CellKind::Text by {
                    assert(prev.in_grid(cx, cy));
                        assert(prev.cell(cx, cy).kind == CellKind::Line || prev.cell(cx, cy).kind == CellKind::Text);
                }
                    }
                }
            }
            k += 1;
        }
        let ghost sx = buf.scroll_x_view();
        let ghost sy = buf.scroll_y_view();
        let mut c: usize = 0;
        while c < m
            invariant
                self.wf(),
                m == self.conns_view().len(),
                n == self.columns_view().len(),
                first == n - 1 - offset,
                first == self.first_shown(view),
                vis == self.shown_count(view, width),
                hi == self.visible_end(view, width),
                offset + vis <= n,
                0 <= hi <= 2 * EXTENT_LIMIT,
                buf.wf(),
                buf.width_view() == width,
                buf.height_view() == height,
                buf.scroll_y_view() == row,
                buf.scroll_x_view() == scroll_x,
                forall|cx: int, cy: int| buf.in_grid(cx, cy) ==> #[trigger] buf.cell(cx, cy) == blank()
                    || self.covered(view, width, cx + scroll_x, cy + row),
                sx == scroll_x,
                sy == row,
                forall|cx: int, cy: int| buf.in_grid(cx, cy) && cx + scroll_x >= hi ==> #[trigger] buf.cell(cx, cy) == blank(),
                forall|k: int, cx: int, cy: int|
                    #![trigger buf.cell(cx, cy), self.marked(view, width, k)]
                    0 <= k < c && self.marked(view, width, k) && buf.in_grid(cx, cy) && cx + sx == self.mark_x(view, width, k)
                    && cy + sy == self.mark_y(view, width, k) ==> buf.cell(cx, cy) == marker_cell(),
                forall|k: int, i: int, cx: int, cy: int|
                    #![trigger buf.cell(cx, cy), self.on_kept_run(view, width, k, i, cx + scroll_x, cy + row)]
                    0 <= k < m && buf.in_grid(cx, cy) && self.on_kept_run(view, width, k, i, cx + scroll_x, cy + row)
                    && !self.in_shown_box(view, width, cx + scroll_x, cy + row) && !self.in_block(view, width, cx + scroll_x, cy + row)
                    ==> buf.cell(cx, cy).kind == CellKind::Line || buf.cell(cx, cy).kind == CellKind::Text,
            decreases m - c,
        {
            let pts = self.route(c);
            let (cut, marked) = cut_route(&pts, hi);
            let cc = self.consumer_column(c);
            let target_hidden = n - 1 - cc >= offset + vis;
            proof {
                let rp = self.route_points(c as int);
                assert forall|i: int| 0 <= i < pts@.len() implies pts@[i] == #[trigger] self.route_seq(c as int)[i] by {
                    assert((pts@[i].0 as int, pts@[i].1 as int) == rp[i]);
                }
                assert(pts@ =~= self.route_seq(c as int));
                assert(hi as i64 == self.visible_end(view, width) as i64);
                lemma_cut_in_bounds(pts@, hi);
            }
            if (marked || target_hidden) && cut.len() > 0 {
                let last = cut[cut.len() - 1];
                assert(cut_route_spec(pts@, hi).0[cut@.len() - 1].0 < hi);
                let ghost prev = buf;
                buf.put(last.0, last.1, CONTINUES, CellKind::Text);
                proof {
                    assert forall|cx: int, cy: int| buf.in_grid(cx, cy) implies #[trigger] buf.cell(cx, cy) == blank()
                        || self.covered(view, width, cx + scroll_x, cy + row) by {
                        assert(prev.in_grid(cx, cy));
                        if buf.cell(cx, cy) != prev.cell(cx, cy) {
                            assert(self.marked(view, width, c as int));
                        }
                    }
                assert forall|k: int, i: int, cx: int, cy: int|
                    #![trigger buf.cell(cx, cy), self.on_kept_run(view, width, k, i, cx + scroll_x, cy + row)]
                    0 <= k < m && buf.in_grid(cx, cy) && self.on_kept_run(view, width, k, i, cx + scroll_x, cy + row)
                    && !self.in_shown_box(view, width, cx + scroll_x, cy + row) && !self.in_block(view, width, cx + scroll_x, cy + row)
                    implies buf.cell(cx, cy).kind == CellKind::Line || buf.cell(cx, cy).kind == CellKind::Text by {
                    assert(prev.in_grid(cx, cy));
                    assert(prev.cell(cx, cy).kind == CellKind::Line || prev.cell(cx, cy).kind == CellKind::Text);
                }

                    assert forall|k: int, cx: int, cy: int|
                        #![trigger buf.cell(cx, cy), self.marked(view, width, k)]
                        0 <= k < c + 1 && self.marked(view, width, k) && buf.in_grid(cx, cy) && cx + sx == self.mark_x(view, width, k)
                        && cy + sy == self.mark_y(view, width, k) implies buf.cell(cx, cy) == marker_cell() by {
                        assert(prev.in_grid(cx, cy));
                        if k < c && !(cx + sx == last.0 && cy + sy == last.1) {
                            assert(prev.cell(cx, cy) == marker_cell());
                        }
                    }
                }
            } else {
                proof {
                    assert(!self.marked(view, width, c as int));
                }
            }
            c += 1;
        }
        let x_in = first_x as i64 - MARGIN as i64 + 1;
        let x_out = self.column_x(0) as i64 + BOX_WIDTH as i64 + 1;
        proof {
            self.lemma_wf_layout();
            lemma_col_x_grows(self.conns_view(), self.depths_view(), n as int, n as int - 1);
        }
        if offset == 0 {
            let ghost prev = buf;
            buf.fill_rect(x_in, 0, 2, clear, Cell { glyph: ' ', kind: CellKind::Fill(1) });
            proof {
                assert forall|cx: int, cy: int| buf.in_grid(cx, cy) implies #[trigger] buf.cell(cx, cy) == blank()
                    || self.covered(view, width, cx + scroll_x, cy + row) by {
                    assert(prev.in_grid(cx, cy));
                    if buf.cell(cx, cy) != prev.cell(cx, cy) {
                        assert(self.in_block(view, width, cx + scroll_x, cy + row));
                    }
                }
                assert forall|k: int, i: int, cx: int, cy: int|
                    #![trigger buf.cell(cx, cy), self.on_kept_run(view, width, k, i, cx + scroll_x, cy + row)]
                    0 <= k < m && buf.in_grid(cx, cy) && self.on_kept_run(view, width, k, i, cx + scroll_x, cy + row)
                    && !self.in_shown_box(view, width, cx + scroll_x, cy + row) && !self.in_block(view, width, cx + scroll_x, cy + row)
                    implies buf.cell(cx, cy).kind == CellKind::Line || buf.cell(cx, cy).kind == CellKind::Text by {
                    assert(prev.in_grid(cx, cy));
                    if buf.cell(cx, cy) != prev.cell(cx, cy) {
                        assert(self.in_block(view, width, cx + scroll_x, cy + row));
                    }
                }
                assert forall|kk: int, cx: int, cy: int|
                    #![trigger buf.cell(cx, cy), self.marked(view, width, kk)]
                    0 <= kk < m && self.marked(view, width, kk) && buf.in_grid(cx, cy) && cx + sx == self.mark_x(view, width, kk)
                    && cy + sy == self.mark_y(view, width, kk) && !self.in_shown_box(view, width, cx + sx, cy + sy)
                    && !self.in_block(view, width, cx + sx, cy + sy)
                    implies buf.cell(cx, cy) == marker_cell() by {
                    assert(prev.in_grid(cx, cy));
                }
                assert forall|cx: int, cy: int| buf.in_grid(cx, cy) && cx + scroll_x >= hi implies #[trigger] buf.cell(cx, cy) == blank() by {
                    assert(prev.in_grid(cx, cy));
                }
            }
        }
        let ghost mid = buf;
        if offset + vis == n {
            let ghost prev = buf;
            buf.fill_rect(x_out, 0, 2, clear, Cell { glyph: ' ', kind: CellKind::Fill(1) });
            proof {
                assert forall|cx: int, cy: int| buf.in_grid(cx, cy) implies #[trigger] buf.cell(cx, cy) == blank()
                    || self.covered(view, width, cx + scroll_x, cy + row) by {
                    assert(prev.in_grid(cx, cy));
                    if buf.cell(cx, cy) != prev.cell(cx, cy) {
                        assert(self.in_block(view, width, cx + scroll_x, cy + row));
                    }
                }
                assert forall|k: int, i: int, cx: int, cy: int|
                    #![trigger buf.cell(cx, cy), self.on_kept_run(view, width, k, i, cx + scroll_x, cy + row)]
                    0 <= k < m && buf.in_grid(cx, cy) && self.on_kept_run(view, width, k, i, cx + scroll_x, cy + row)
                    && !self.in_shown_box(view, width, cx + scroll_x, cy + row) && !self.in_block(view, width, cx + scroll_x, cy + row)
                    implies buf.cell(cx, cy).kind == CellKind::Line || buf.cell(cx, cy).kind == CellKind::Text by {
                    assert(prev.in_grid(cx, cy));
                    if buf.cell(cx, cy) != prev.cell(cx, cy) {
                        assert(self.in_block(view, width, cx + scroll_x, cy + row));
                    }
                }
                assert forall|kk: int, cx: int, cy: int|
                    #![trigger buf.cell(cx, cy), self.marked(view, width, kk)]
                    0 <= kk < m && self.marked(view, width, kk) && buf.in_grid(cx, cy) && cx + sx == self.mark_x(view, width, kk)
                    && cy + sy == self.mark_y(view, width, kk) && !self.in_shown_box(view, width, cx + sx, cy + sy)
                    && !self.in_block(view, width, cx + sx, cy + sy)
                    implies buf.cell(cx, cy) == marker_cell() by {
                    assert(prev.in_grid(cx, cy));
                }
                assert forall|cx: int, cy: int| buf.in_grid(cx, cy) && cx + scroll_x >= hi implies #[trigger] buf.cell(cx, cy) == blank() by {
                    assert(prev.in_grid(cx, cy));
                }
                assert forall|cx: int, cy: int| buf.in_grid(cx, cy) && offset == 0 && self.x_of(n as int - 1) - MARGIN + 1 <= cx + sx
                    < self.x_of(n as int - 1) - MARGIN + 3 && 0 <= cy + sy < clear implies #[trigger] buf.cell(cx, cy) == block_cell() by {
                    assert(prev.in_grid(cx, cy));
                }
            }
        }
        let mut k: usize = 0;
        while k < vis
            invariant
                self.wf(),
                n == self.columns_view().len(),
                offset < n,
                offset + vis <= n,
                k <= vis,
                buf.wf(),
                buf.width_view() == width,
                buf.height_view() == height,
                buf.scroll_y_view() == row,
                buf.scroll_x_view() == scroll_x,
                forall|cx: int, cy: int| buf.in_grid(cx, cy) ==> #[trigger] buf.cell(cx, cy) == blank()
                    || self.covered(view, width, cx + scroll_x, cy + row),
                forall|cx: int, cy: int| buf.in_grid(cx, cy) && cx + scroll_x >= hi ==> #[trigger] buf.cell(cx, cy) == blank(),
                sx == scroll_x,
                sy == row,
                first == n - 1 - offset,
                vis <= first + 1,
                vis <= first ==> hi == self.x_of(first - vis),
                vis == self.shown_count(view, width),
                first == self.first_shown(view),
                hi == self.visible_end(view, width),
                widths@ == self.display_widths(),
                room == (if width > MARGIN { width - MARGIN } else { 0 }),
                span_width(widths@, offset as int, vis as int) <= room,
                forall|k: int, cx: int, cy: int|
                    #![trigger buf.cell(cx, cy), self.marked(view, width, k)]
                    0 <= k < m && self.marked(view, width, k) && buf.in_grid(cx, cy) && cx + sx == self.mark_x(view, width, k)
                    && cy + sy == self.mark_y(view, width, k) && !self.in_shown_box(view, width, cx + sx, cy + sy)
                    && !self.in_block(view, width, cx + sx, cy + sy) ==> buf.cell(cx, cy) == marker_cell(),
                forall|cx: int, cy: int| buf.in_grid(cx, cy) && self.in_block(view, width, cx + sx, cy + sy)
                    ==> #[trigger] buf.cell(cx, cy) == block_cell(),
                clear == self.clear_row(),
                vis == first + 1 ==> hi == self.x_of(0) + BOX_WIDTH + MARGIN,
                forall|cx: int, cy: int, c: int, p: int|
                    #![trigger buf.cell(cx, cy), self.in_box(c, p, cx + sx, cy + sy)]
                    buf.in_grid(cx, cy) && n - 1 - offset - k < c <= n - 1 - offset && 0 <= p < self.columns_view()[c]@.len()
                    && self.in_box(c, p, cx + sx, cy + sy) ==> buf.cell(cx, cy) == box_cell(),
                forall|k: int, i: int, cx: int, cy: int|
                    #![trigger buf.cell(cx, cy), self.on_kept_run(view, width, k, i, cx + scroll_x, cy + row)]
                    0 <= k < m && buf.in_grid(cx, cy) && self.on_kept_run(view, width, k, i, cx + scroll_x, cy + row)
                    && !self.in_shown_box(view, width, cx + scroll_x, cy + row) && !self.in_block(view, width, cx + scroll_x, cy + row)
                    ==> buf.cell(cx, cy).kind == CellKind::Line || buf.cell(cx, cy).kind == CellKind::Text,
            decreases vis - k,
        {
            let ghost prev = buf;
            let col = n - 1 - (offset + k);
            proof {
                if vis <= first {
                    self.lemma_x_order(first - vis, col as int);
                } else {
                    self.lemma_wf_layout();
                    lemma_col_x_grows(self.conns_view(), self.depths_view(), n as int, col as int);
                }
            }
            proof {
                lemma_span_grows(widths@, offset as int, k as int + 1, vis as int);
                assert(self.shown(view, width, col as int));
            }
            self.draw_column(&mut buf, col);
            proof {
                assert forall|cx: int, cy: int| buf.in_grid(cx, cy) implies #[trigger] buf.cell(cx, cy) == blank()
                    || self.covered(view, width, cx + scroll_x, cy + row) by {
                    assert(prev.in_grid(cx, cy));
                    if buf.cell(cx, cy) != prev.cell(cx, cy) {
                        let q = choose|q: int| 0 <= q < self.columns_view()[col as int]@.len()
                            && #[trigger] self.in_box(col as int, q, cx + sx, cy + sy);
                        assert(self.in_shown_box(view, width, cx + sx, cy + sy));
                    }
                }
                assert forall|kk: int, cx: int, cy: int|
                    #![trigger buf.cell(cx, cy), self.marked(view, width, kk)]
                    0 <= kk < m && self.marked(view, width, kk) && buf.in_grid(cx, cy) && cx + sx == self.mark_x(view, width, kk)
                    && cy + sy == self.mark_y(view, width, kk) && !self.in_shown_box(view, width, cx + sx, cy + sy)
                    && !self.in_block(view, width, cx + sx, cy + sy) implies buf.cell(cx, cy) == marker_cell() by {
                    assert(prev.in_grid(cx, cy));
                    if buf.cell(cx, cy) != prev.cell(cx, cy) {
                        let q = choose|q: int| 0 <= q < self.columns_view()[col as int]@.len()
                            && #[trigger] self.in_box(col as int, q, cx + sx, cy + sy);
                        assert(self.in_shown_box(view, width, cx + sx, cy + sy));
                    }
                }
                assert forall|k: int, i: int, cx: int, cy: int|
                    #![trigger buf.cell(cx, cy), self.on_kept_run(view, width, k, i, cx + scroll_x, cy + row)]
                    0 <= k < m && buf.in_grid(cx, cy) && self.on_kept_run(view, width, k, i, cx + scroll_x, cy + row)
                    && !self.in_shown_box(view, width, cx + scroll_x, cy + row) && !self.in_block(view, width, cx + scroll_x, cy + row)
                    implies buf.cell(cx, cy).kind == CellKind::Line || buf.cell(cx, cy).kind == CellKind::Text by {
                    assert(prev.in_grid(cx, cy));
                    if buf.cell(cx, cy) != prev.cell(cx, cy) {
                        let q = choose|q: int| 0 <= q < self.columns_view()[col as int]@.len()
                            && #[trigger] self.in_box(col as int, q, cx + sx, cy + sy);
                        assert(self.in_shown_box(view, width, cx + sx, cy + sy));
                    }
                }
                assert forall|cx: int, cy: int| buf.in_grid(cx, cy) && self.in_block(view, width, cx + sx, cy + sy)
                    implies #[trigger] buf.cell(cx, cy) == block_cell() by {
                    assert(prev.in_grid(cx, cy));
                    if buf.cell(cx, cy) != prev.cell(cx, cy) {
                        let q = choose|q: int| 0 <= q < self.columns_view()[col as int]@.len()
                            && #[trigger] self.in_box(col as int, q, cx + sx, cy + sy);
                        self.lemma_wf_layout();
                        lemma_col_x_grows(self.conns_view(), self.depths_view(), n as int, col as int);
                        if (col as int) < n as int - 1 {
                            self.lemma_x_order(col as int, n as int - 1);
                        }
                    }
                }
                assert forall|cx: int, cy: int| buf.in_grid(cx, cy) && cx + scroll_x >= hi implies #[trigger] buf.cell(cx, cy) == blank() by {
                    assert(prev.in_grid(cx, cy));
                    if buf.cell(cx, cy) != prev.cell(cx, cy) {
                        let q = choose|q: int| 0 <= q < self.columns_view()[col as int]@.len()
                            && #[trigger] self.in_box(col as int, q, cx + sx, cy + sy);
                    }
                }
            }
            proof {
                assert forall|cx: int, cy: int, c: int, p: int|
                    #![trigger buf.cell(cx, cy), self.in_box(c, p, cx + sx, cy + sy)]
                    buf.in_grid(cx, cy) && n - 1 - offset - (k + 1) < c <= n - 1 - offset && 0 <= p < self.columns_view()[c]@.len()
                    && self.in_box(c, p, cx + sx, cy + sy) implies buf.cell(cx, cy) == box_cell() by {
                    assert(prev.in_grid(cx, cy));
                    if c != col {
                        assert(prev.cell(cx, cy) == box_cell());
                        assert(buf.cell(cx, cy) == prev.cell(cx, cy) || buf.cell(cx, cy) == box_cell());
                    }
                }
            }
            k += 1;
        }
        proof {
            assert(first == n - 1 - offset);
            assert forall|c: int| 0 <= c <= first && c < n && !#[trigger] self.shown(view, width, c)
                implies self.x_of(c) >= self.visible_end(view, width) by {
                let kk = first - c + 1;
                if kk <= vis {
                    lemma_span_grows(widths@, offset as int, kk, vis as int);
                }
                if c < first - vis {
                    self.lemma_x_order(c, first - vis);
                }
            }
            assert forall|c: int| self.shown(view, width, c) implies n - 1 - offset - vis < c by {
                let kk = first - c + 1;
                if kk > vis {
                    assert(offset + vis < n);
                    lemma_span_grows(widths@, offset as int, vis as int + 1, kk);
                }
            }
        }
        buf
    }
}

proof fn lemma_cut_in_bounds(pts: Seq<(i64, i64)>, hi: i64)
    requires
        0 <= hi <= 2 * EXTENT_LIMIT,
        forall|i: int| 0 <= i < pts.len() ==> 0 <= #[trigger] pts[i].0 <= EXTENT_LIMIT && 0 <= pts[i].1 <= EXTENT_LIMIT,
    ensures
        forall|i: int| 0 <= i < cut_route_spec(pts, hi).0.len() ==> 0 <= #[trigger] cut_route_spec(pts, hi).0[i].0
            <= 4 * EXTENT_LIMIT && 0 <= cut_route_spec(pts, hi).0[i].1 <= 4 * EXTENT_LIMIT,
        forall|i: int| 0 <= i < cut_route_spec(pts, hi).0.len() ==> #[trigger] cut_route_spec(pts, hi).0[i].0 < hi,
{
    let cut = cut_route_spec(pts, hi).0;
    let mi = cut_index(pts, hi, 0);
    lemma_cut_index_range(pts, hi, 0);
    assert forall|i: int| 0 <= i < cut.len() implies 0 <= #[trigger] cut[i].0 <= 4 * EXTENT_LIMIT && 0 <= cut[i].1
        <= 4 * EXTENT_LIMIT by {
        if mi < pts.len() && mi > 0 && i == mi {
            lemma_cut_index_before(pts, hi, 0, mi - 1);
        } else {
            assert(cut[i] == pts[i]);
        }
    }
    assert forall|i: int| 0 <= i < cut.len() implies #[trigger] cut[i].0 < hi by {
        if mi < pts.len() && mi > 0 && i == mi {
        } else {
            assert(cut[i] == pts[i]);
            lemma_cut_index_before(pts, hi, 0, i);
        }
    }
}

proof fn lemma_span_grows(widths: Seq<usize>, start: int, k: int, m: int)
    requires
        0 <= k <= m,
    ensures
        span_width(widths, start, k) <= span_width(widths, start, m),
    decreases m - k,
{
    if k < m {
        lemma_span_grows(widths, start, k, m - 1);
    }
}

proof fn lemma_cut_index_range(pts: Seq<(i64, i64)>, hi: i64, i: int)
    requires
        0 <= i <= pts.len(),
    ensures
        i <= cut_index(pts, hi, i) <= pts.len(),
    decreases pts.len() - i,
{
    if i < pts.len() && pts[i].0 < hi {
        lemma_cut_index_range(pts, hi, i + 1);
    }
}

proof fn lemma_cut_index_before(pts: Seq<(i64, i64)>, hi: i64, i: int, j: int)
    requires
        0 <= i <= j < cut_index(pts, hi, i),
        cut_index(pts, hi, i) <= pts.len(),
    ensures
        pts[j].0 < hi,
    decreases j - i,
{
    if i < j {
        lemma_cut_index_before(pts, hi, i + 1, j);
    }
}

} // verus!

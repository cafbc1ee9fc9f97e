use vstd::prelude::*;

verus! {

/// One input event, as far as the view cares.
#[derive(Clone, Copy, Debug, PartialEq, Eq, Structural)]
pub enum Key {
    Left,
    Right,
    Up,
    Down,
    Quit,
    Other,
}

/// What the render loop does next.
#[derive(Clone, Copy, Debug, PartialEq, Eq, Structural)]
pub enum Action {
    Redraw,
    Quit,
}

/// Scroll state: the first display column shown and the first row shown.
#[derive(Clone, Copy, Debug, PartialEq, Eq, Structural)]
pub struct ViewState {
    pub col_offset: usize,
    pub row_offset: usize,
}

/// The view after `key`, with column offsets clamped to `[0, max_col]` and row
/// offsets to `[0, max_row]`.
pub open spec fn next_view(v: ViewState, key: Key, max_col: usize, max_row: usize) -> ViewState {
    match key {
        Key::Left => ViewState { col_offset: if v.col_offset == 0 { 0 } else { (v.col_offset - 1) as usize }, ..v },
        Key::Right => ViewState { col_offset: if v.col_offset >= max_col { max_col } else { (v.col_offset + 1) as usize }, ..v },
        Key::Up => ViewState { row_offset: if v.row_offset == 0 { 0 } else { (v.row_offset - 1) as usize }, ..v },
        Key::Down => ViewState { row_offset: if v.row_offset >= max_row { max_row } else { (v.row_offset + 1) as usize }, ..v },
        _ => v,
    }
}

/// The view after each key of `keys` in turn.
pub open spec fn view_after(v: ViewState, keys: Seq<Key>, max_col: usize, max_row: usize) -> ViewState
    decreases keys.len(),
{
    if keys.len() == 0 {
        v
    } else {
        view_after(next_view(v, keys[0], max_col, max_row), keys.drop_first(), max_col, max_row)
    }
}

pub open spec fn view_in_bounds(v: ViewState, max_col: usize, max_row: usize) -> bool {
    v.col_offset <= max_col && v.row_offset <= max_row
}

impl ViewState {
    pub fn new() -> (r: ViewState)
        ensures
            r.col_offset == 0 && r.row_offset == 0,
    {
        ViewState { col_offset: 0, row_offset: 0 }
    }

    /// Applies one key: arrows scroll by one within the bounds, quit ends the
    /// session, anything else changes nothing.
    pub fn handle_key(&mut self, key: Key, max_col: usize, max_row: usize) -> (r: Action)
        ensures
            *final(self) == next_view(*old(self), key, max_col, max_row),
            r == (if key == Key::Quit { Action::Quit } else { Action::Redraw }),
    {
        match key {
            Key::Left => {
                if self.col_offset > 0 {
                    self.col_offset = self.col_offset - 1;
                }
            },
            Key::Right => {
                if self.col_offset >= max_col {
                    self.col_offset = max_col;
                } else {
                    self.col_offset = self.col_offset + 1;
                }
            },
            Key::Up => {
                if self.row_offset > 0 {
                    self.row_offset = self.row_offset - 1;
                }
            },
            Key::Down => {
                if self.row_offset >= max_row {
                    self.row_offset = max_row;
                } else {
                    self.row_offset = self.row_offset + 1;
                }
            },
            Key::Quit => {
                return Action::Quit;
            },
            Key::Other => {},
        }
        Action::Redraw
    }
}

/// Scrolling never leaves the bounds: from any view within them, every key
/// sequence ends within them; scrolling left from the first column stays
/// there, and scrolling right from the last column stays there.
pub proof fn lemma_scroll_clamped(v: ViewState, keys: Seq<Key>, max_col: usize, max_row: usize)
    requires
        view_in_bounds(v, max_col, max_row),
    ensures
        view_in_bounds(view_after(v, keys, max_col, max_row), max_col, max_row),
        v.col_offset == 0 ==> next_view(v, Key::Left, max_col, max_row).col_offset == 0,
        v.col_offset == max_col ==> next_view(v, Key::Right, max_col, max_row).col_offset == max_col,
        v.row_offset == 0 ==> next_view(v, Key::Up, max_col, max_row).row_offset == 0,
        v.row_offset == max_row ==> next_view(v, Key::Down, max_col, max_row).row_offset == max_row,
    decreases keys.len(),
{
    if keys.len() > 0 {
        lemma_scroll_clamped(next_view(v, keys[0], max_col, max_row), keys.drop_first(), max_col, max_row);
    }
}

/// Repeated scrolling against an edge stays at that edge.
pub proof fn lemma_scroll_stays_at_edge(v: ViewState, n: nat, max_col: usize, max_row: usize)
    requires
        view_in_bounds(v, max_col, max_row),
    ensures
        v.col_offset == 0 ==> view_after(v, Seq::new(n, |i: int| Key::Left), max_col, max_row) == v,
        v.col_offset == max_col ==> view_after(v, Seq::new(n, |i: int| Key::Right), max_col, max_row) == v,
    decreases n,
{
    if n > 0 {
        lemma_scroll_stays_at_edge(v, (n - 1) as nat, max_col, max_row);
        assert(Seq::new(n, |i: int| Key::Left).drop_first() =~= Seq::new((n - 1) as nat, |i: int| Key::Left));
        assert(Seq::new(n, |i: int| Key::Right).drop_first() =~= Seq::new((n - 1) as nat, |i: int| Key::Right));
    }
}

/// The sum of `widths[start..start + k]`.
pub open spec fn span_width(widths: Seq<usize>, start: int, k: int) -> int
    decreases k,
{
    if k <= 0 { 0 } else { span_width(widths, start, k - 1) + widths[start + k - 1] }
}

/// How many whole columns fit, left to right from `start`, in `room` cells:
/// the most that fit, never a partial one.
pub fn visible_column_count(widths: &Vec<usize>, start: usize, room: usize) -> (k: usize)
    requires
        start <= widths@.len(),
    ensures
        start + k <= widths@.len(),
        span_width(widths@, start as int, k as int) <= room,
        start + k < widths@.len() ==> span_width(widths@, start as int, k as int + 1) > room,
{
    let mut k: usize = 0;
    let mut used: usize = 0;
    while k < widths.len() - start
        invariant
            start + k <= widths@.len(),
            used == span_width(widths@, start as int, k as int),
            used <= room,
        decreases widths@.len() - start - k,
    {
        let w = widths[start + k];
        if w > room - used {
            return k;
        }
        used = used + w;
        k += 1;
    }
    k
}

} // verus!

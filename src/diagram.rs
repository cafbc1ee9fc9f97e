use vstd::prelude::*;
use crate::columns::{build_columns, is_column, is_column_layout, lemma_columns_partition};
use crate::graph::{connects, has_id, index_of, socket_target, table_wf, Instance, NodeGraph, Socket, NO_CONNECTION};
use crate::grid::{Cell, CellKind, OverdrawBuffer};
use crate::layering::{compute_depths, has_overlong_chain, is_longest_depth, lemma_fed_instance_depth, LayoutError};

verus! {

/// Width of every instance box.
pub const BOX_WIDTH: usize = 20;
/// Room left of the deepest column and right of column 0, for the boundary markers.
pub const MARGIN: usize = 4;
/// The largest extent, in cells, that a diagram may have in either direction.
pub const EXTENT_LIMIT: usize = 1000000000;

/// One connection: socket `socket` of instance `consumer` is fed by output
/// socket `out_socket` of instance `producer` (both arena positions).
#[derive(Clone, Copy, Debug, PartialEq, Eq, Structural)]
pub struct Conn {
    pub consumer: usize,
    pub socket: usize,
    pub producer: usize,
    pub out_socket: usize,
}

pub open spec fn conn_valid(g: Seq<Instance>, c: Conn) -> bool {
    &&& c.consumer < g.len()
    &&& c.producer < g.len()
    &&& c.socket < g[c.consumer as int].sockets@.len()
    &&& g[c.consumer as int].sockets@[c.socket as int] == Socket::Connection(g[c.producer as int].id, c.out_socket)
    &&& g[c.producer as int].id != NO_CONNECTION
}

pub open spec fn conn_before(a: Conn, b: Conn) -> bool {
    a.consumer < b.consumer || (a.consumer == b.consumer && a.socket < b.socket)
}

/// `conns` lists every real connection of the table once, by consumer, then socket.
pub open spec fn conns_exact(g: Seq<Instance>, conns: Seq<Conn>) -> bool {
    &&& forall|k: int| 0 <= k < conns.len() ==> conn_valid(g, #[trigger] conns[k])
    &&& forall|a: int, b: int| 0 <= a < b < conns.len() ==> conn_before(#[trigger] conns[a], #[trigger] conns[b])
    &&& forall|i: int, s: int| 0 <= i < g.len() && 0 <= s < g[i].sockets@.len() && (#[trigger] socket_target(
        g[i].sockets@[s])) is Some ==> exists|k: int|
        0 <= k < conns.len() && #[trigger] conns[k].consumer == i && conns[k].socket == s
}

/// Lists the connections of a well-formed table.
pub fn connections(instances: &Vec<Instance>) -> (conns: Vec<Conn>)
    requires
        table_wf(instances@),
    ensures
        conns_exact(instances@, conns@),
{
    let ghost g = instances@;
    let n = instances.len();
    let mut conns: Vec<Conn> = Vec::new();
    let mut i: usize = 0;
    while i < n
        invariant
            g == instances@,
            table_wf(g),
            n == g.len(),
            i <= n,
            forall|k: int| 0 <= k < conns@.len() ==> conn_valid(g, #[trigger] conns@[k]) && conns@[k].consumer < i,
            forall|a: int, b: int| 0 <= a < b < conns@.len() ==> conn_before(#[trigger] conns@[a], #[trigger] conns@[b]),
            forall|x: int, s: int| 0 <= x < i && 0 <= s < g[x].sockets@.len() && (#[trigger] socket_target(
                g[x].sockets@[s])) is Some ==> exists|k: int|
                0 <= k < conns@.len() && #[trigger] conns@[k].consumer == x && conns@[k].socket == s,
        decreases n - i,
    {
        let sockets = &instances[i].sockets;
        let mut s: usize = 0;
        while s < sockets.len()
            invariant
                g == instances@,
                table_wf(g),
                n == g.len(),
                i < n,
                sockets@ == g[i as int].sockets@,
                s <= sockets@.len(),
                forall|k: int| 0 <= k < conns@.len() ==> conn_valid(g, #[trigger] conns@[k]) && (conns@[k].consumer < i
                    || (conns@[k].consumer == i && conns@[k].socket < s)),
                forall|a: int, b: int| 0 <= a < b < conns@.len() ==> conn_before(#[trigger] conns@[a], #[trigger] conns@[b]),
                forall|x: int, s2: int| 0 <= x < i && 0 <= s2 < g[x].sockets@.len() && (#[trigger] socket_target(
                    g[x].sockets@[s2])) is Some ==> exists|k: int|
                    0 <= k < conns@.len() && #[trigger] conns@[k].consumer == x && conns@[k].socket == s2,
                forall|s2: int| 0 <= s2 < s && (#[trigger] socket_target(sockets@[s2])) is Some ==> exists|k: int|
                    0 <= k < conns@.len() && #[trigger] conns@[k].consumer == i && conns@[k].socket == s2,
            decreases sockets@.len() - s,
        {
            if let Socket::Connection(t, out) = sockets[s] {
                if t != NO_CONNECTION {
                    assert(socket_target(sockets@[s as int]) == Some(t));
                    let found = index_of(instances, t);
                    match found {
                        Some(m) => {
                            let ghost before = conns@;
                            conns.push(Conn { consumer: i, socket: s, producer: m, out_socket: out });
                            assert(conns@[before.len() as int].consumer == i);
                            assert forall|x: int, s2: int| 0 <= x < i && 0 <= s2 < g[x].sockets@.len() && (#[trigger] socket_target(
                                g[x].sockets@[s2])) is Some implies exists|k: int|
                                0 <= k < conns@.len() && #[trigger] conns@[k].consumer == x && conns@[k].socket == s2 by {
                                let k = choose|k: int| 0 <= k < before.len() && #[trigger] before[k].consumer == x && before[k].socket == s2;
                                assert(conns@[k] == before[k]);
                            }
                            assert forall|s2: int| 0 <= s2 < s + 1 && (#[trigger] socket_target(sockets@[s2])) is Some implies exists|k: int|
                                0 <= k < conns@.len() && #[trigger] conns@[k].consumer == i && conns@[k].socket == s2 by {
                                if s2 < s {
                                    let k = choose|k: int| 0 <= k < before.len() && #[trigger] before[k].consumer == i && before[k].socket == s2;
                                    assert(conns@[k] == before[k]);
                                } else {
                                    assert(conns@[before.len() as int].socket == s2);
                                }
                            }
                        },
                        None => {
                            assert(false);
                        },
                    }
                }
            }
            s += 1;
        }
        i += 1;
    }
    conns
}

/// Connections among the first `k` of `conns` whose consumer has depth `c`.
pub open spec fn count_into(conns: Seq<Conn>, d: Seq<usize>, c: int) -> nat
    decreases conns.len(),
{
    if conns.len() == 0 {
        0
    } else {
        count_into(conns.drop_last(), d, c) + if d[conns.last().consumer as int] == c { 1nat } else { 0nat }
    }
}

/// Connections that leave column `c + 1` and end in a column nearer the output than `c`.
pub open spec fn count_skip(conns: Seq<Conn>, d: Seq<usize>, c: int) -> nat
    decreases conns.len(),
{
    if conns.len() == 0 {
        0
    } else {
        count_skip(conns.drop_last(), d, c) + if d[conns.last().producer as int] == c + 1 && d[conns.last().consumer
            as int] < c { 1nat } else { 0nat }
    }
}

/// Connections that skip at least one column; each gets a row of its own below the columns.
pub open spec fn count_long(conns: Seq<Conn>, d: Seq<usize>) -> nat
    decreases conns.len(),
{
    if conns.len() == 0 {
        0
    } else {
        count_long(conns.drop_last(), d) + if d[conns.last().producer as int] > d[conns.last().consumer as int] + 1 {
            1nat
        } else {
            0nat
        }
    }
}

proof fn lemma_long_prefix(conns: Seq<Conn>, d: Seq<usize>, k: int, m: int)
    requires
        0 <= k <= m <= conns.len(),
    ensures
        count_long(conns.take(k), d) <= count_long(conns.take(m), d),
    decreases m - k,
{
    if k < m {
        lemma_long_prefix(conns, d, k, m - 1);
        assert(conns.take(m).drop_last() =~= conns.take(m - 1));
    }
}

/// The connections among the first `upto` that skip at least one column.
fn long_count(conns: &Vec<Conn>, depths: &Vec<usize>, upto: usize) -> (r: usize)
    requires
        upto <= conns@.len(),
        forall|k: int| 0 <= k < conns@.len() ==> (#[trigger] conns@[k]).consumer < depths@.len()
            && conns@[k].producer < depths@.len(),
    ensures
        r == count_long(conns@.take(upto as int), depths@),
        r <= upto,
{
    let mut a: usize = 0;
    let mut m: usize = 0;
    while m < upto
        invariant
            upto <= conns@.len(),
            forall|k: int| 0 <= k < conns@.len() ==> (#[trigger] conns@[k]).consumer < depths@.len()
                && conns@[k].producer < depths@.len(),
            m <= upto,
            a == count_long(conns@.take(m as int), depths@),
            a <= m,
        decreases upto - m,
    {
        let cn = conns[m];
        proof {
            assert(conns@.take(m as int + 1).drop_last() =~= conns@.take(m as int));
            assert(conns@[m as int] == cn);
        }
        if depths[cn.producer] > depths[cn.consumer] && depths[cn.producer] - depths[cn.consumer] > 1 {
            a = a + 1;
        }
        m += 1;
    }
    a
}

/// Bend lanes reserved between column `c + 1` and column `c`.
pub open spec fn lanes(conns: Seq<Conn>, d: Seq<usize>, c: int) -> nat {
    (if count_into(conns, d, c) == 0 { 1 } else { count_into(conns, d, c) }) + count_skip(conns, d, c)
}

/// Width of the gap right of column `c + 1`: its lanes with one lane of margin on each side.
pub open spec fn gap_width(conns: Seq<Conn>, d: Seq<usize>, c: int) -> nat {
    lanes(conns, d, c) + 2
}

/// For each column, the number of connections ending in it and the number
/// skipping past it from the column left of it.
fn lane_counts(conns: &Vec<Conn>, depths: &Vec<usize>, count: usize) -> (r: (Vec<usize>, Vec<usize>))
    requires
        forall|k: int| 0 <= k < conns@.len() ==> (#[trigger] conns@[k]).consumer < depths@.len()
            && conns@[k].producer < depths@.len() && depths@[conns@[k].consumer as int] < count
            && depths@[conns@[k].producer as int] < count,
    ensures
        r.0@.len() == count,
        r.1@.len() == count,
        forall|c: int| 0 <= c < count ==> #[trigger] r.0@[c] == count_into(conns@, depths@, c)
            && r.1@[c] == count_skip(conns@, depths@, c),
{
    let mut into: Vec<usize> = Vec::new();
    let mut skip: Vec<usize> = Vec::new();
    let mut c: usize = 0;
    while c < count
        invariant
            c <= count,
            into@.len() == c,
            skip@.len() == c,
            forall|x: int| 0 <= x < c ==> #[trigger] into@[x] == 0,
            forall|x: int| 0 <= x < c ==> #[trigger] skip@[x] == 0,
        decreases count - c,
    {
        into.push(0);
        skip.push(0);
        c += 1;
    }
    let mut k: usize = 0;
    while k < conns.len()
        invariant
            forall|k: int| 0 <= k < conns@.len() ==> (#[trigger] conns@[k]).consumer < depths@.len()
                && conns@[k].producer < depths@.len() && depths@[conns@[k].consumer as int] < count
                && depths@[conns@[k].producer as int] < count,
            k <= conns@.len(),
            into@.len() == count,
            skip@.len() == count,
            forall|x: int| 0 <= x < count ==> #[trigger] into@[x] == count_into(conns@.take(k as int), depths@, x),
            forall|x: int| 0 <= x < count ==> #[trigger] skip@[x] == count_skip(conns@.take(k as int), depths@, x),
            forall|x: int| 0 <= x < count ==> count_into(#[trigger] conns@.take(k as int), depths@, x) <= k
                && count_skip(conns@.take(k as int), depths@, x) <= k,
        decreases conns@.len() - k,
    {
        let cn = conns[k];
        let dc = depths[cn.consumer];
        let dp = depths[cn.producer];
        let ghost pre = conns@.take(k as int);
        let ghost post = conns@.take(k as int + 1);
        assert(post.drop_last() =~= pre);
        assert(post.last() == cn);
        assert forall|x: int| 0 <= x < count implies count_into(pre, depths@, x) <= k && count_skip(pre, depths@, x) <= k by {
            assert(count_into(conns@.take(k as int), depths@, x) <= k);
        }
        into.set(dc, into[dc] + 1);
        if dp >= 1 && dc < dp - 1 {
            let c1 = dp - 1;
            assert(count_skip(pre, depths@, c1 as int) <= k);
            skip.set(c1, skip[c1] + 1);
        }
        k += 1;
        assert forall|x: int| 0 <= x < count implies count_into(#[trigger] conns@.take(k as int), depths@, x) <= k
            && count_skip(conns@.take(k as int), depths@, x) <= k by {
            assert(conns@.take(k as int) == post);
            assert(count_into(pre, depths@, x) <= k - 1);
            assert(count_skip(pre, depths@, x) <= k - 1);
            assert(count_into(post, depths@, x) <= count_into(pre, depths@, x) + 1);
            assert(count_skip(post, depths@, x) <= count_skip(pre, depths@, x) + 1);
        }
    }
    assert(conns@.take(conns@.len() as int) =~= conns@);
    (into, skip)
}

/// Height of an instance box: two rows per socket (at least one), plus one.
/// Input sockets sit on odd rows of the box, output sockets on even rows.
pub open spec fn box_height(inst: Instance) -> nat {
    2 * (if inst.sockets@.len() == 0 { 1 } else { inst.sockets@.len() }) + 1
}

/// Top row of the box at position `p` of a column: the boxes above it, each
/// followed by one row of padding.
pub open spec fn col_top(g: Seq<Instance>, col: Seq<usize>, p: int) -> nat
    decreases p,
{
    if p <= 0 {
        0
    } else {
        col_top(g, col, p - 1) + box_height(g[col[p - 1] as int]) + 1
    }
}

/// Left edge of column `c` of `count`: the deepest column stands leftmost,
/// after the margin; each column is followed by its box width and the gap
/// right of it.
pub open spec fn col_x(conns: Seq<Conn>, d: Seq<usize>, count: int, c: int) -> nat
    decreases count - c,
{
    if c + 1 >= count {
        MARGIN as nat
    } else {
        (col_x(conns, d, count, c + 1) + BOX_WIDTH + gap_width(conns, d, c)) as nat
    }
}

/// Every column and the whole width stay within the extent limit.
pub open spec fn extent_fits(g: Seq<Instance>, d: Seq<usize>, cols: Seq<Vec<usize>>, conns: Seq<Conn>) -> bool {
    &&& forall|c: int| 0 <= c < cols.len() ==> col_top(g, #[trigger] cols[c]@, cols[c]@.len() as int) <= EXTENT_LIMIT
    &&& cols.len() > 0 ==> col_x(conns, d, cols.len() as int, 0) + BOX_WIDTH + MARGIN <= EXTENT_LIMIT
    &&& max_height(g, cols, cols.len() as int) + count_long(conns, d) <= EXTENT_LIMIT
}

pub proof fn lemma_col_x_grows(conns: Seq<Conn>, d: Seq<usize>, count: int, c: int)
    requires
        0 <= c < count,
    ensures
        col_x(conns, d, count, 0) >= col_x(conns, d, count, c),
    decreases c,
{
    if c > 0 {
        lemma_col_x_grows(conns, d, count, c - 1);
    }
}

proof fn lemma_col_x_bottom(conns: Seq<Conn>, d: Seq<usize>, count: int)
    requires
        count > 0,
    ensures
        forall|c: int| 0 <= c < count ==> #[trigger] col_x(conns, d, count, c) >= MARGIN,
{
    assert forall|c: int| 0 <= c < count implies #[trigger] col_x(conns, d, count, c) >= MARGIN by {
        lemma_col_x_floor(conns, d, count, c);
    }
}

proof fn lemma_col_x_floor(conns: Seq<Conn>, d: Seq<usize>, count: int, c: int)
    ensures
        col_x(conns, d, count, c) >= MARGIN,
    decreases count - c,
{
    if c + 1 < count {
        lemma_col_x_floor(conns, d, count, c + 1);
    }
}

proof fn lemma_col_top_grows(g: Seq<Instance>, col: Seq<usize>, p: int, q: int)
    requires
        0 <= p <= q,
    ensures
        col_top(g, col, p) <= col_top(g, col, q),
    decreases q - p,
{
    if p < q {
        lemma_col_top_grows(g, col, p, q - 1);
    }
}

/// Top rows of the boxes of one column, in order; `None` past the extent limit.
fn column_tops(instances: &Vec<Instance>, col: &Vec<usize>) -> (r: Option<Vec<usize>>)
    requires
        forall|p: int| 0 <= p < col@.len() ==> #[trigger] col@[p] < instances@.len(),
    ensures
        r is None <==> col_top(instances@, col@, col@.len() as int) > EXTENT_LIMIT,
        r matches Some(t) ==> t@.len() == col@.len() + 1 && forall|p: int| 0 <= p <= col@.len() ==> #[trigger] t@[p]
            == col_top(instances@, col@, p),
{
    let mut tops: Vec<usize> = Vec::new();
    let mut y: usize = 0;
    tops.push(0);
    let mut p: usize = 0;
    while p < col.len()
        invariant
            forall|p: int| 0 <= p < col@.len() ==> #[trigger] col@[p] < instances@.len(),
            p <= col@.len(),
            y == col_top(instances@, col@, p as int),
            y <= EXTENT_LIMIT,
            tops@.len() == p + 1,
            forall|q: int| 0 <= q <= p ==> #[trigger] tops@[q] == col_top(instances@, col@, q),
        decreases col@.len() - p,
    {
        let len = instances[col[p]].sockets.len();
        let rows: usize = if len == 0 { 1 } else { len };
        if rows > EXTENT_LIMIT || 2 * rows + 1 + 1 > EXTENT_LIMIT - y {
            proof {
                lemma_col_top_grows(instances@, col@, p as int + 1, col@.len() as int);
            }
            return None;
        }
        y = y + 2 * rows + 1 + 1;
        tops.push(y);
        p += 1;
    }
    Some(tops)
}

/// What a box is drawn with.
pub open spec fn box_cell() -> Cell {
    Cell { glyph: ' ', kind: CellKind::Fill(2) }
}

/// Height of the tallest of the first `c` columns, padding row included.
pub open spec fn max_height(g: Seq<Instance>, cols: Seq<Vec<usize>>, c: int) -> nat
    decreases c,
{
    if c <= 0 {
        0
    } else {
        let h = col_top(g, cols[c - 1]@, cols[c - 1]@.len() as int);
        let m = max_height(g, cols, c - 1);
        if h > m { h } else { m }
    }
}

proof fn lemma_max_height_bounds(g: Seq<Instance>, cols: Seq<Vec<usize>>, c: int)
    requires
        0 <= c <= cols.len(),
        forall|x: int| 0 <= x < cols.len() ==> col_top(g, #[trigger] cols[x]@, cols[x]@.len() as int) <= EXTENT_LIMIT,
    ensures
        max_height(g, cols, c) <= EXTENT_LIMIT,
        forall|x: int| 0 <= x < c ==> col_top(g, #[trigger] cols[x]@, cols[x]@.len() as int) <= max_height(g, cols, c),
    decreases c,
{
    if c > 0 {
        lemma_max_height_bounds(g, cols, c - 1);
    }
}

proof fn lemma_count_prefix(conns: Seq<Conn>, d: Seq<usize>, c: int, k: int, m: int)
    requires
        0 <= k <= m <= conns.len(),
    ensures
        count_into(conns.take(k), d, c) <= count_into(conns.take(m), d, c),
        count_skip(conns.take(k), d, c) <= count_skip(conns.take(m), d, c),
    decreases m - k,
{
    if k < m {
        lemma_count_prefix(conns, d, c, k, m - 1);
        assert(conns.take(m).drop_last() =~= conns.take(m - 1));
    }
    assert(conns.take(conns.len() as int) =~= conns);
}

/// The laid-out diagram of one graph: what a render loop draws from.
pub struct Diagram {
    graph: NodeGraph,
    depths: Vec<usize>,
    columns: Vec<Vec<usize>>,
    conns: Vec<Conn>,
    into: Vec<usize>,
    skip: Vec<usize>,
    xs: Vec<usize>,
    tops: Vec<Vec<usize>>,
    clear_y: usize,
}

impl Diagram {
    pub closed spec fn graph_view(&self) -> Seq<Instance> {
        self.graph.instances_view()
    }

    /// The output boundary's entries: (instance id, output socket).
    pub closed spec fn outputs_view(&self) -> Seq<(usize, usize)> {
        self.graph.outputs_view()
    }

    /// The input boundary's entries: (instance id, input socket).
    pub closed spec fn inputs_view(&self) -> Seq<(usize, usize)> {
        self.graph.inputs_view()
    }

    pub closed spec fn depths_view(&self) -> Seq<usize> {
        self.depths@
    }

    pub closed spec fn columns_view(&self) -> Seq<Vec<usize>> {
        self.columns@
    }

    pub closed spec fn conns_view(&self) -> Seq<Conn> {
        self.conns@
    }

    pub closed spec fn wf(&self) -> bool {
        let g = self.graph.instances_view();
        let d = self.depths@;
        let n = self.columns@.len();
        &&& self.graph.wf()
        &&& is_longest_depth(g, d)
        &&& forall|j: int| 0 <= j < d.len() ==> #[trigger] d[j] < d.len()
        &&& is_column_layout(g, d, self.columns@)
        &&& conns_exact(g, self.conns@)
        &&& extent_fits(g, d, self.columns@, self.conns@)
        &&& self.clear_y == max_height(g, self.columns@, n as int)
        &&& self.into@.len() == n && self.skip@.len() == n && self.xs@.len() == n && self.tops@.len() == n
        &&& forall|c: int| 0 <= c < n ==> #[trigger] self.into@[c] == count_into(self.conns@, d, c)
            && self.skip@[c] == count_skip(self.conns@, d, c)
            && self.xs@[c] == col_x(self.conns@, d, n as int, c)
            && self.tops@[c]@.len() == self.columns@[c]@.len() + 1
            && forall|p: int| 0 <= p <= self.columns@[c]@.len() ==> #[trigger] self.tops@[c]@[p]
                == col_top(g, self.columns@[c]@, p)
    }

    /// Position of instance `j` within its column.
    pub closed spec fn slot(&self, j: int) -> int {
        choose|p: int| 0 <= p < self.columns@[self.depths@[j] as int]@.len() && self.columns@[self.depths@[j] as int]@[p] == j
    }

    /// Top row of the box of instance `j`.
    pub open spec fn top_of(&self, j: int) -> int {
        col_top(self.graph_view(), self.columns_view()[self.depths_view()[j] as int]@, self.slot(j)) as int
    }

    pub open spec fn x_of(&self, c: int) -> int {
        col_x(self.conns_view(), self.depths_view(), self.columns_view().len() as int, c) as int
    }

    /// The bent route of connection `k`: out of the producer's right edge at its
    /// output row, into the lane reserved for it in the gap left of the consumer's
    /// column, down or up that lane, and into the consumer's input row. A
    /// connection that skips columns first turns in a lane of the gap right of
    /// its producer and runs below every column, on a row of its own, to its
    /// final lane.
    pub open spec fn route_points(&self, k: int) -> Seq<(int, int)> {
        let g = self.graph_view();
        let d = self.depths_view();
        let conns = self.conns_view();
        let cn = conns[k];
        let pc = d[cn.producer as int] as int;
        let cc = d[cn.consumer as int] as int;
        let rows = if g[cn.producer as int].sockets@.len() == 0 { 1 } else { g[cn.producer as int].sockets@.len() as int };
        let out = if (cn.out_socket as int) < rows { cn.out_socket as int } else { rows - 1 };
        let sx = self.x_of(pc) + BOX_WIDTH;
        let sy = self.top_of(cn.producer as int) + 2 + 2 * out;
        let tx = self.x_of(cc) - 1;
        let ty = self.top_of(cn.consumer as int) + 1 + 2 * cn.socket;
        let lane = self.x_of(cc + 1) + BOX_WIDTH + 1 + count_into(conns.take(k), d, cc);
        if pc == cc + 1 {
            seq![(sx, sy), (lane, sy), (lane, ty), (tx, ty)]
        } else {
            let into = count_into(conns, d, pc - 1);
            let skip = sx + 1 + (if into == 0 { 1 } else { into }) + count_skip(conns.take(k), d, pc - 1);
            let clear = self.clear_row() + count_long(conns.take(k), d);
            seq![(sx, sy), (skip, sy), (skip, clear), (lane, clear), (lane, ty), (tx, ty)]
        }
    }

    /// The row just below the tallest column.
    pub open spec fn clear_row(&self) -> int {
        max_height(self.graph_view(), self.columns_view(), self.columns_view().len() as int) as int
    }

    proof fn lemma_slot(&self, j: usize)
        requires
            self.wf(),
            j < self.graph_view().len(),
        ensures
            0 <= self.slot(j as int) < self.columns_view()[self.depths_view()[j as int] as int]@.len(),
            self.columns_view()[self.depths_view()[j as int] as int]@[self.slot(j as int)] == j,
            forall|p: int| 0 <= p < self.columns_view()[self.depths_view()[j as int] as int]@.len()
                && #[trigger] self.columns_view()[self.depths_view()[j as int] as int]@[p] == j ==> p == self.slot(j as int),
    {
        let g = self.graph_view();
        let d = self.depths@;
        lemma_columns_partition(g, d, self.columns@);
        let col = self.columns@[d[j as int] as int]@;
        assert(col.contains(j));
        let p0 = choose|p: int| 0 <= p < col.len() && col[p] == j;
        assert(col[p0] == j);
        let sl = self.slot(j as int);
        assert forall|p: int| 0 <= p < col.len() && #[trigger] col[p] == j implies p == sl by {
            assert(self.columns@[d[j as int] as int]@[p] == self.columns@[d[j as int] as int]@[sl]);
        }
    }

    /// Position of instance `j` within its column.
    fn find_slot(&self, j: usize) -> (p: usize)
        requires
            self.wf(),
            j < self.graph_view().len(),
        ensures
            p == self.slot(j as int),
    {
        proof {
            self.lemma_slot(j);
        }
        let col = &self.columns[self.depths[j]];
        let mut p: usize = 0;
        while p < col.len()
            invariant
                self.wf(),
                j < self.graph_view().len(),
                col@ == self.columns_view()[self.depths_view()[j as int] as int]@,
                0 <= self.slot(j as int) < col@.len(),
                col@[self.slot(j as int)] == j,
                p <= self.slot(j as int),
            decreases col@.len() - p,
        {
            if col[p] == j {
                proof {
                    self.lemma_slot(j);
                }
                return p;
            }
            p += 1;
        }
        p
    }

    /// Connections among the first `k` ending in column `c`, and those among
    /// them skipping from column `c + 1` past column `c`.
    fn prefix_counts(&self, k: usize, c: usize) -> (r: (usize, usize))
        requires
            self.wf(),
            k <= self.conns_view().len(),
        ensures
            r.0 == count_into(self.conns_view().take(k as int), self.depths_view(), c as int),
            r.1 == count_skip(self.conns_view().take(k as int), self.depths_view(), c as int),
    {
        let ghost conns = self.conns@;
        let ghost d = self.depths@;
        let mut a: usize = 0;
        let mut b: usize = 0;
        let mut m: usize = 0;
        while m < k
            invariant
                self.wf(),
                conns == self.conns@,
                d == self.depths@,
                k <= conns.len(),
                m <= k,
                a == count_into(conns.take(m as int), d, c as int),
                b == count_skip(conns.take(m as int), d, c as int),
                a <= m,
                b <= m,
            decreases k - m,
        {
            let cn = self.conns[m];
            proof {
                assert(conns_exact(self.graph_view(), conns));
                assert(conn_valid(self.graph_view(), conns[m as int]));
                assert(conns.take(m as int + 1).drop_last() =~= conns.take(m as int));
            }
            if self.depths[cn.consumer] == c {
                a = a + 1;
            }
            if self.depths[cn.producer] >= 1 && self.depths[cn.producer] - 1 == c && self.depths[cn.consumer] < c {
                b = b + 1;
            }
            m += 1;
        }
        (a, b)
    }

    /// Row `2 + 2t` of instance `j`'s box (the last output row for a larger `t`).
    pub open spec fn out_row(&self, j: int, t: int) -> int {
        let n = self.graph_view()[j].sockets@.len() as int;
        let rows = if n == 0 { 1 } else { n };
        self.top_of(j) + 2 + 2 * (if t < rows { t } else { rows - 1 })
    }

    /// Row `1 + 2s` of instance `j`'s box (the last input row for a larger `s`).
    pub open spec fn in_row(&self, j: int, s: int) -> int {
        let n = self.graph_view()[j].sockets@.len() as int;
        let rows = if n == 0 { 1 } else { n };
        self.top_of(j) + 1 + 2 * (if s < rows { s } else { rows - 1 })
    }

    /// The run from output socket `t` of instance `j` to the output boundary marker.
    pub open spec fn output_route_points(&self, j: int, t: int) -> Seq<(int, int)> {
        let y = self.out_row(j, t);
        seq![(self.x_of(self.depths_view()[j] as int) + BOX_WIDTH, y), (self.x_of(0) + BOX_WIDTH, y)]
    }

    /// The run from the input boundary marker to input socket `s` of instance `j`.
    pub open spec fn input_route_points(&self, j: int, s: int) -> Seq<(int, int)> {
        let y = self.in_row(j, s);
        let last = self.columns_view().len() - 1;
        seq![(self.x_of(last) - 1, y), (self.x_of(self.depths_view()[j] as int) - 1, y)]
    }

    /// Top row and rows of the box of instance `j`, within the extent limit.
    fn box_rows(&self, j: usize) -> (r: (usize, usize))
        requires
            self.wf(),
            j < self.graph_view().len(),
        ensures
            r.0 == self.top_of(j as int),
            r.1 == (if self.graph_view()[j as int].sockets@.len() == 0 { 1 } else { self.graph_view()[j as int].sockets@.len() }),
            r.0 + 2 * r.1 + 1 <= EXTENT_LIMIT,
    {
        let ghost g = self.graph_view();
        let ghost d = self.depths@;
        let c = self.depths[j];
        let p = self.find_slot(j);
        proof {
            self.lemma_slot(j);
            assert(is_column(g, d, c, self.columns@[c as int]@));
            assert(extent_fits(g, d, self.columns@, self.conns@));
            assert(col_top(g, self.columns@[c as int]@, self.columns@[c as int]@.len() as int) <= EXTENT_LIMIT);
            lemma_col_top_grows(g, self.columns@[c as int]@, p as int + 1, self.columns@[c as int]@.len() as int);
            assert(self.into@[c as int] == count_into(self.conns@, d, c as int));
            assert(self.tops@[c as int]@[p as int] == col_top(g, self.columns@[c as int]@, p as int));
        }
        let len = self.graph.instances()[j].sockets.len();
        (self.tops[c][p], if len == 0 { 1 } else { len })
    }

    /// Position of the instance with id `id`.
    pub open spec fn root_pos(&self, id: usize) -> int {
        choose|j: int| 0 <= j < self.graph_view().len() && self.graph_view()[j].id == id
    }

    proof fn lemma_root_pos(&self, j: int)
        requires
            self.wf(),
            0 <= j < self.graph_view().len(),
        ensures
            self.root_pos(self.graph_view()[j].id) == j,
    {
        let id = self.graph_view()[j].id;
        let p = self.root_pos(id);
        assert(0 <= p < self.graph_view().len() && self.graph_view()[p].id == id);
        assert(crate::graph::ids_unique(self.graph_view()));
    }

    /// The run for entry `k` of the output boundary, unless that entry is unconnected.
    pub fn output_route(&self, k: usize) -> (r: Option<Vec<(i64, i64)>>)
        requires
            self.wf(),
            k < self.outputs_view().len(),
        ensures
            self.outputs_view()[k as int].0 == NO_CONNECTION <==> r is None,
            r matches Some(v) ==> v@.len() == 2 && forall|i: int| 0 <= i < 2 ==> (#[trigger] v@[i].0 as int, v@[i].1 as int)
                    == self.output_route_points(self.root_pos(self.outputs_view()[k as int].0), self.outputs_view()[k as int].1 as int)[i],
            r matches Some(v) ==> forall|i: int| 0 <= i < v@.len() ==> 0 <= #[trigger] v@[i].0 <= EXTENT_LIMIT && 0 <= v@[i].1 <= EXTENT_LIMIT,
    {
        let (id, t) = self.graph.output_connections()[k];
        if id == NO_CONNECTION {
            return None;
        }
        match index_of(self.graph.instances(), id) {
            Some(j) => {
                proof {
                    self.lemma_root_pos(j as int);
                }
                let (top, rows) = self.box_rows(j);
                let out: usize = if t < rows { t } else { rows - 1 };
                let y = (top + 2 + 2 * out) as i64;
                let c = self.depths[j];
                let x0 = self.column_x(c);
                let x1 = self.column_x(0);
                proof {
                    assert(self.depths@.len() == self.graph_view().len());
                    assert(extent_fits(self.graph_view(), self.depths@, self.columns@, self.conns@));
                    lemma_col_x_grows(self.conns@, self.depths@, self.columns@.len() as int, c as int);
                }
                let mut v: Vec<(i64, i64)> = Vec::new();
                v.push(((x0 + BOX_WIDTH) as i64, y));
                v.push(((x1 + BOX_WIDTH) as i64, y));
                Some(v)
            },
            None => {
                proof {
                    assert(crate::graph::root_ok(self.graph_view(), self.outputs_view()));
                }
                None
            },
        }
    }

    /// The run for entry `k` of the input boundary, unless that entry is unconnected.
    pub fn input_route(&self, k: usize) -> (r: Option<Vec<(i64, i64)>>)
        requires
            self.wf(),
            k < self.inputs_view().len(),
        ensures
            self.inputs_view()[k as int].0 == NO_CONNECTION <==> r is None,
            r matches Some(v) ==> v@.len() == 2 && forall|i: int| 0 <= i < 2 ==> (#[trigger] v@[i].0 as int, v@[i].1 as int)
                    == self.input_route_points(self.root_pos(self.inputs_view()[k as int].0), self.inputs_view()[k as int].1 as int)[i],
            r matches Some(v) ==> forall|i: int| 0 <= i < v@.len() ==> 0 <= #[trigger] v@[i].0 <= EXTENT_LIMIT && 0 <= v@[i].1 <= EXTENT_LIMIT,
    {
        let (id, s) = self.graph.input_connections()[k];
        if id == NO_CONNECTION {
            return None;
        }
        match index_of(self.graph.instances(), id) {
            Some(j) => {
                proof {
                    self.lemma_root_pos(j as int);
                }
                let (top, rows) = self.box_rows(j);
                let si: usize = if s < rows { s } else { rows - 1 };
                let y = (top + 1 + 2 * si) as i64;
                let c = self.depths[j];
                let n = self.columns.len();
                proof {
                    assert(self.depths@.len() == self.graph_view().len());
                    lemma_col_x_bottom(self.conns@, self.depths@, n as int);
                }
                let x0 = self.column_x(n - 1);
                let x1 = self.column_x(c);
                let mut v: Vec<(i64, i64)> = Vec::new();
                v.push((x0 as i64 - 1, y));
                v.push((x1 as i64 - 1, y));
                Some(v)
            },
            None => {
                proof {
                    assert(crate::graph::root_ok(self.graph_view(), self.inputs_view()));
                }
                None
            },
        }
    }

    /// Computes the route of connection `k`, as `route_points` gives it.
    #[verifier::rlimit(100)]
    pub fn route(&self, k: usize) -> (r: Vec<(i64, i64)>)
        requires
            self.wf(),
            k < self.conns_view().len(),
        ensures
            r@.len() == self.route_points(k as int).len(),
            forall|i: int| 0 <= i < r@.len() ==> (#[trigger] r@[i].0 as int, r@[i].1 as int) == self.route_points(k as int)[i],
            forall|i: int| 0 <= i < r@.len() ==> 0 <= #[trigger] r@[i].0 <= EXTENT_LIMIT && 0 <= r@[i].1 <= EXTENT_LIMIT,
    {
        let ghost g = self.graph_view();
        let ghost d = self.depths@;
        let ghost conns = self.conns@;
        let n = self.columns.len();
        let cn = self.conns[k];
        proof {
            assert(conn_valid(g, conns[k as int]));
            assert(socket_target(g[cn.consumer as int].sockets@[cn.socket as int]) == Some(g[cn.producer as int].id));
            assert(connects(g, cn.consumer as int, cn.producer as int));
            lemma_fed_instance_depth(g, d, cn.producer as int);
        }
        let pc = self.depths[cn.producer];
        let cc = self.depths[cn.consumer];
        let ps = self.find_slot(cn.producer);
        let cs = self.find_slot(cn.consumer);
        proof {
            self.lemma_slot(cn.producer);
            self.lemma_slot(cn.consumer);
            assert(is_column(g, d, pc, self.columns@[pc as int]@));
            assert(is_column(g, d, cc, self.columns@[cc as int]@));
            assert(extent_fits(g, d, self.columns@, conns));
            assert(col_top(g, self.columns@[pc as int]@, self.columns@[pc as int]@.len() as int) <= EXTENT_LIMIT);
            assert(col_top(g, self.columns@[cc as int]@, self.columns@[cc as int]@.len() as int) <= EXTENT_LIMIT);
            lemma_col_top_grows(g, self.columns@[pc as int]@, ps as int + 1, self.columns@[pc as int]@.len() as int);
            lemma_col_top_grows(g, self.columns@[cc as int]@, cs as int + 1, self.columns@[cc as int]@.len() as int);
            lemma_col_x_grows(conns, d, n as int, cc as int);
            lemma_col_x_grows(conns, d, n as int, pc as int - 1);
            lemma_count_prefix(conns, d, cc as int, k as int, conns.len() as int);
            lemma_count_prefix(conns, d, pc as int - 1, k as int, conns.len() as int);
            lemma_max_height_bounds(g, self.columns@, n as int);
            assert(self.into@[cc as int] == count_into(conns, d, cc as int));
            assert(self.into@[pc as int - 1] == count_into(conns, d, pc as int - 1));
            assert(self.into@[pc as int] == count_into(conns, d, pc as int));
            assert(self.into@[cc as int + 1] == count_into(conns, d, cc as int + 1));
            assert(self.xs@[pc as int] == col_x(conns, d, n as int, pc as int));
            assert(self.xs@[cc as int] == col_x(conns, d, n as int, cc as int));
            assert(self.xs@[cc as int + 1] == col_x(conns, d, n as int, cc as int + 1));
            assert(self.tops@[pc as int]@[ps as int] == col_top(g, self.columns@[pc as int]@, ps as int));
            assert(self.tops@[cc as int]@[cs as int] == col_top(g, self.columns@[cc as int]@, cs as int));
            assert(col_x(conns, d, n as int, cc as int) == col_x(conns, d, n as int, cc as int + 1) + BOX_WIDTH
                + gap_width(conns, d, cc as int));
            assert(col_x(conns, d, n as int, pc as int - 1) == col_x(conns, d, n as int, pc as int) + BOX_WIDTH
                + gap_width(conns, d, pc as int - 1));
            assert(k as int <= conns.len());
            assert(conns.take(conns.len() as int) =~= conns);
        }
        let len = self.graph.instances()[cn.producer].sockets.len();
        let rows: usize = if len == 0 { 1 } else { len };
        let out: usize = if cn.out_socket < rows { cn.out_socket } else { rows - 1 };
        let sx: i64 = (self.xs[pc] + BOX_WIDTH) as i64;
        let sy: i64 = (self.tops[pc][ps] + 2 + 2 * out) as i64;
        let tx: i64 = (self.xs[cc] - 1) as i64;
        let ty: i64 = (self.tops[cc][cs] + 1 + 2 * cn.socket) as i64;
        let (before_into, _) = self.prefix_counts(k, cc);
        let lane: i64 = (self.xs[cc + 1] + BOX_WIDTH + 1 + before_into) as i64;
        let mut r: Vec<(i64, i64)> = Vec::new();
        if pc == cc + 1 {
            r.push((sx, sy));
            r.push((lane, sy));
            r.push((lane, ty));
            r.push((tx, ty));
        } else {
            let into = self.into[pc - 1];
            let (_, before_skip) = self.prefix_counts(k, pc - 1);
            let skip: i64 = sx + 1 + (if into == 0 { 1 } else { into }) as i64 + before_skip as i64;
            let before_long = long_count(&self.conns, &self.depths, k);
            proof {
                lemma_long_prefix(conns, d, k as int, conns.len() as int);
                assert(conns.take(conns.len() as int) =~= conns);
            }
            let clear = (self.clear_y + before_long) as i64;
            r.push((sx, sy));
            r.push((skip, sy));
            r.push((skip, clear));
            r.push((lane, clear));
            r.push((lane, ty));
            r.push((tx, ty));
        }
        r
    }

    pub fn column_count(&self) -> (r: usize)
        ensures
            r == self.columns_view().len(),
    {
        self.columns.len()
    }

    pub fn output_count(&self) -> (r: usize)
        ensures
            r == self.outputs_view().len(),
    {
        self.graph.output_connections().len()
    }

    pub fn input_count(&self) -> (r: usize)
        ensures
            r == self.inputs_view().len(),
    {
        self.graph.input_connections().len()
    }

    pub fn connection_count(&self) -> (r: usize)
        ensures
            r == self.conns_view().len(),
    {
        self.conns.len()
    }

    /// The connection at position `k`.
    pub fn connection(&self, k: usize) -> (r: Conn)
        requires
            k < self.conns_view().len(),
        ensures
            r == self.conns_view()[k as int],
    {
        self.conns[k]
    }

    /// The column of the consumer of connection `k`.
    pub fn consumer_column(&self, k: usize) -> (r: usize)
        requires
            self.wf(),
            k < self.conns_view().len(),
        ensures
            r == self.depths_view()[self.conns_view()[k as int].consumer as int],
            r < self.columns_view().len(),
    {
        proof {
            assert(conn_valid(self.graph_view(), self.conns@[k as int]));
        }
        self.depths[self.conns[k].consumer]
    }

    /// Left edge of column `c`.
    pub fn column_x(&self, c: usize) -> (r: usize)
        requires
            self.wf(),
            c < self.columns_view().len(),
        ensures
            r == self.x_of(c as int),
            r <= EXTENT_LIMIT,
    {
        proof {
            assert(self.into@[c as int] == count_into(self.conns@, self.depths@, c as int));
            lemma_col_x_grows(self.conns@, self.depths@, self.columns@.len() as int, c as int);
        }
        self.xs[c]
    }

    /// Rows taken by column `c`, padding row included.
    pub fn column_height(&self, c: usize) -> (r: usize)
        requires
            self.wf(),
            c < self.columns_view().len(),
        ensures
            r == col_top(self.graph_view(), self.columns_view()[c as int]@, self.columns_view()[c as int]@.len() as int),
    {
        proof {
            assert(self.into@[c as int] == count_into(self.conns@, self.depths@, c as int));
        }
        self.tops[c][self.columns[c].len()]
    }

    /// The row just below the tallest column.
    pub fn clear_height(&self) -> (r: usize)
        requires
            self.wf(),
        ensures
            r == self.clear_row(),
            r <= EXTENT_LIMIT,
    {
        proof {
            lemma_max_height_bounds(self.graph_view(), self.columns@, self.columns@.len() as int);
        }
        self.clear_y
    }

    /// Width of display column `k` (column `n - 1 - k`, counted from the left)
    /// together with the gap or margin right of it.
    pub open spec fn display_width(&self, k: int) -> int {
        let c = self.columns_view().len() - 1 - k;
        if c == 0 { (BOX_WIDTH + MARGIN) as int } else { self.x_of(c - 1) - self.x_of(c) }
    }

    pub open spec fn display_widths(&self) -> Seq<usize> {
        Seq::new(self.columns_view().len(), |k: int| self.display_width(k) as usize)
    }

    /// The display widths, leftmost column first.
    pub fn column_widths(&self) -> (r: Vec<usize>)
        requires
            self.wf(),
        ensures
            r@.len() == self.columns_view().len(),
            r@ == self.display_widths(),
            forall|k: int| 0 <= k < r@.len() ==> #[trigger] r@[k] == self.display_width(k),
    {
        let n = self.columns.len();
        let mut r: Vec<usize> = Vec::new();
        let mut k: usize = 0;
        while k < n
            invariant
                self.wf(),
                n == self.columns_view().len(),
                k <= n,
                r@.len() == k,
                forall|x: int| 0 <= x < k ==> #[trigger] r@[x] == self.display_width(x),
            decreases n - k,
        {
            let c = n - 1 - k;
            if c == 0 {
                r.push(BOX_WIDTH + MARGIN);
            } else {
                proof {
                    assert(self.into@[c as int] == count_into(self.conns@, self.depths@, c as int));
                    assert(self.into@[c as int - 1] == count_into(self.conns@, self.depths@, c as int - 1));
                    assert(col_x(self.conns@, self.depths@, n as int, c as int - 1) == col_x(self.conns@, self.depths@,
                        n as int, c as int) + BOX_WIDTH + gap_width(self.conns@, self.depths@, c as int - 1));
                }
                r.push(self.xs[c - 1] - self.xs[c]);
            }
            k += 1;
        }
        r
    }

    /// Diagram point (wx, wy) lies in the box at position `p` of column `c`.
    pub open spec fn in_box(&self, c: int, p: int, wx: int, wy: int) -> bool {
        let col = self.columns_view()[c]@;
        let top = col_top(self.graph_view(), col, p) as int;
        &&& self.x_of(c) <= wx < self.x_of(c) + BOX_WIDTH
        &&& top <= wy < top + box_height(self.graph_view()[col[p] as int])
    }

    /// Draws the boxes of column `c`: every cell of them becomes a box cell,
    /// and no other cell becomes anything else.
    pub(crate) fn draw_column(&self, buf: &mut OverdrawBuffer, c: usize)
        requires
            self.wf(),
            c < self.columns_view().len(),
            old(buf).wf(),
        ensures
            final(buf).wf(),
            final(buf).same_frame(old(buf)),
            forall|cx: int, cy: int, p: int|
                #![trigger final(buf).cell(cx, cy), self.in_box(c as int, p, cx + old(buf).scroll_x_view(), cy + old(buf).scroll_y_view())]
                final(buf).in_grid(cx, cy) && 0 <= p < self.columns_view()[c as int]@.len()
                && self.in_box(c as int, p, cx + old(buf).scroll_x_view(), cy + old(buf).scroll_y_view())
                ==> final(buf).cell(cx, cy) == box_cell(),
            forall|cx: int, cy: int| final(buf).in_grid(cx, cy) ==> #[trigger] final(buf).cell(cx, cy) == old(buf).cell(cx, cy)
                || (final(buf).cell(cx, cy) == box_cell() && exists|p: int| 0 <= p < self.columns_view()[c as int]@.len()
                    && #[trigger] self.in_box(c as int, p, cx + old(buf).scroll_x_view(), cy + old(buf).scroll_y_view())),
    {
        let x = self.column_x(c);
        let col = &self.columns[c];
        let tops = &self.tops[c];
        proof {
            assert(self.into@[c as int] == count_into(self.conns@, self.depths@, c as int));
            assert(extent_fits(self.graph_view(), self.depths@, self.columns@, self.conns@));
            assert(col_top(self.graph_view(), self.columns@[c as int]@, self.columns@[c as int]@.len() as int) <= EXTENT_LIMIT);
        }
        let mut p: usize = 0;
        while p < col.len()
            invariant
                self.wf(),
                c < self.columns_view().len(),
                col@ == self.columns@[c as int]@,
                tops@ == self.tops@[c as int]@,
                tops@.len() == col@.len() + 1,
                forall|q: int| 0 <= q <= col@.len() ==> #[trigger] tops@[q] == col_top(self.graph_view(), col@, q),
                col_top(self.graph_view(), col@, col@.len() as int) <= EXTENT_LIMIT,
                x <= EXTENT_LIMIT,
                buf.wf(),
                buf.same_frame(old(buf)),
                p <= col@.len(),
                x == self.x_of(c as int),
                forall|cx: int, cy: int, q: int|
                    #![trigger buf.cell(cx, cy), self.in_box(c as int, q, cx + old(buf).scroll_x_view(), cy + old(buf).scroll_y_view())]
                    buf.in_grid(cx, cy) && 0 <= q < p
                    && self.in_box(c as int, q, cx + old(buf).scroll_x_view(), cy + old(buf).scroll_y_view())
                    ==> buf.cell(cx, cy) == box_cell(),
                forall|cx: int, cy: int| buf.in_grid(cx, cy) ==> #[trigger] buf.cell(cx, cy) == old(buf).cell(cx, cy)
                    || (buf.cell(cx, cy) == box_cell() && exists|q: int| 0 <= q < p
                        && #[trigger] self.in_box(c as int, q, cx + old(buf).scroll_x_view(), cy + old(buf).scroll_y_view())),
            decreases col@.len() - p,
        {
            proof {
                lemma_col_top_grows(self.graph_view(), col@, p as int + 1, col@.len() as int);
                assert(tops@[p as int + 1] == col_top(self.graph_view(), col@, p as int + 1));
                assert(tops@[p as int] == col_top(self.graph_view(), col@, p as int));
            }
            let top = tops[p];
            let h = tops[p + 1] - top - 1;
            let ghost prev = *buf;
            buf.fill_rect(x as i64, top as i64, BOX_WIDTH, h, Cell { glyph: ' ', kind: CellKind::Fill(2) });
            proof {
                assert forall|cx: int, cy: int| buf.in_grid(cx, cy) implies #[trigger] buf.cell(cx, cy) == old(buf).cell(cx, cy)
                    || (buf.cell(cx, cy) == box_cell() && exists|q: int| 0 <= q < p + 1
                        && #[trigger] self.in_box(c as int, q, cx + old(buf).scroll_x_view(), cy + old(buf).scroll_y_view())) by {
                    assert(prev.in_grid(cx, cy));
                    if buf.cell(cx, cy) != prev.cell(cx, cy) {
                        assert(self.in_box(c as int, p as int, cx + old(buf).scroll_x_view(), cy + old(buf).scroll_y_view()));
                    } else if prev.cell(cx, cy) != old(buf).cell(cx, cy) {
                        let q = choose|q: int| 0 <= q < p
                            && #[trigger] self.in_box(c as int, q, cx + old(buf).scroll_x_view(), cy + old(buf).scroll_y_view());
                        assert(0 <= q < p + 1);
                    }
                }
                assert forall|cx: int, cy: int, q: int|
                    #![trigger buf.cell(cx, cy), self.in_box(c as int, q, cx + old(buf).scroll_x_view(), cy + old(buf).scroll_y_view())]
                    buf.in_grid(cx, cy) && 0 <= q < p + 1
                    && self.in_box(c as int, q, cx + old(buf).scroll_x_view(), cy + old(buf).scroll_y_view())
                    implies buf.cell(cx, cy) == box_cell() by {
                    assert(prev.in_grid(cx, cy));
                    if q < p {
                        assert(prev.cell(cx, cy) == box_cell());
                    }
                }
            }
            p += 1;
        }
    }

    /// The ids of the instances in column `c`, top to bottom.
    pub fn column_ids(&self, c: usize) -> (r: Vec<usize>)
        requires
            self.wf(),
            c < self.columns_view().len(),
        ensures
            r@.len() == self.columns_view()[c as int]@.len(),
            forall|p: int| 0 <= p < r@.len() ==> #[trigger] r@[p] == self.graph_view()[self.columns_view()[c as int]@[p] as int].id,
    {
        let col = &self.columns[c];
        let inst = self.graph.instances();
        proof {
            assert(is_column(self.graph_view(), self.depths@, c, self.columns@[c as int]@));
        }
        let mut r: Vec<usize> = Vec::new();
        let mut p: usize = 0;
        while p < col.len()
            invariant
                self.wf(),
                c < self.columns_view().len(),
                col@ == self.columns@[c as int]@,
                inst@ == self.graph_view(),
                forall|q: int| 0 <= q < col@.len() ==> #[trigger] col@[q] < inst@.len(),
                p <= col@.len(),
                r@.len() == p,
                forall|q: int| 0 <= q < p ==> #[trigger] r@[q] == inst@[col@[q] as int].id,
            decreases col@.len() - p,
        {
            r.push(inst[col[p]].id);
            p += 1;
        }
        r
    }

    /// The depth of the instance with id `id`, if there is one.
    pub fn depth_of(&self, id: usize) -> (r: Option<usize>)
        requires
            self.wf(),
        ensures
            r matches Some(dep) ==> exists|j: int| 0 <= j < self.graph_view().len() && self.graph_view()[j].id == id
                && self.depths_view()[j] == dep,
            r is None <==> !has_id(self.graph_view(), id),
    {
        match index_of(self.graph.instances(), id) {
            Some(j) => {
                proof {
                    assert(self.depths@.len() == self.graph_view().len());
                    assert(self.graph_view()[j as int].id == id);
                    assert(self.graph_view()[j as int].id == id && self.depths_view()[j as int] == self.depths@[j as int]);
                    assert(has_id(self.graph_view(), id));
                }
                Some(self.depths[j])
            },
            None => None,
        }
    }

    /// The largest column offset of the view: the rightmost column alone in view.
    pub fn max_col_offset(&self) -> (r: usize)
        ensures
            r == if self.columns_view().len() == 0 { 0 } else { self.columns_view().len() - 1 },
    {
        if self.columns.len() == 0 { 0 } else { self.columns.len() - 1 }
    }

    /// What a laid-out diagram is: the longest-chain depths, one column per
    /// depth, and every connection listed once.
    pub proof fn lemma_wf_layout(&self)
        requires
            self.wf(),
        ensures
            is_longest_depth(self.graph_view(), self.depths_view()),
            is_column_layout(self.graph_view(), self.depths_view(), self.columns_view()),
            conns_exact(self.graph_view(), self.conns_view()),
            extent_fits(self.graph_view(), self.depths_view(), self.columns_view(), self.conns_view()),
    {
    }

    /// Lays out a well-formed graph. Fails on a cycle, or when the diagram
    /// would exceed the extent limit.
    #[verifier::spinoff_prover]
    #[verifier::rlimit(100)]
    pub fn build(graph: NodeGraph) -> (r: Result<Diagram, LayoutError>)
        requires
            graph.wf(),
        ensures
            has_overlong_chain(graph.instances_view()) ==> r == Err::<Diagram, LayoutError>(LayoutError::Cycle),
            r == Err::<Diagram, LayoutError>(LayoutError::Cycle) ==> has_overlong_chain(graph.instances_view()),
            r matches Ok(dg) ==> dg.wf() && dg.graph_view() == graph.instances_view()
                && dg.outputs_view() == graph.outputs_view() && dg.inputs_view() == graph.inputs_view()
                && is_longest_depth(graph.instances_view(), dg.depths_view())
                && is_column_layout(graph.instances_view(), dg.depths_view(), dg.columns_view())
                && conns_exact(graph.instances_view(), dg.conns_view())
                && extent_fits(graph.instances_view(), dg.depths_view(), dg.columns_view(), dg.conns_view()),
            r == Err::<Diagram, LayoutError>(LayoutError::TooLarge) ==> exists|d: Seq<usize>, cols: Seq<Vec<usize>>, conns: Seq<Conn>|
                is_longest_depth(graph.instances_view(), d) && is_column_layout(graph.instances_view(), d, cols)
                && conns_exact(graph.instances_view(), conns) && !extent_fits(graph.instances_view(), d, cols, conns),
    {
        let depths = match compute_depths(&graph) {
            Ok(d) => d,
            Err(e) => {
                return Err(e);
            },
        };
        let columns = build_columns(graph.instances(), &depths);
        let conns = connections(graph.instances());
        let count = columns.len();
        proof {
            assert forall|k: int| 0 <= k < conns@.len() implies (#[trigger] conns@[k]).consumer < depths@.len()
                && conns@[k].producer < depths@.len() && depths@[conns@[k].consumer as int] < count
                && depths@[conns@[k].producer as int] < count by {
                assert(crate::diagram::conn_valid(graph.instances_view(), conns@[k]));
            }
        }
        let (into, skip) = lane_counts(&conns, &depths, count);
        let ghost g = graph.instances_view();
        let mut tops: Vec<Vec<usize>> = Vec::new();
        let mut clear_y: usize = 0;
        let mut c: usize = 0;
        while c < count
            invariant
                clear_y == max_height(g, columns@, c as int),
                g == graph.instances_view(),
                !has_overlong_chain(g),
                is_longest_depth(g, depths@),
                conns_exact(g, conns@),
                is_column_layout(g, depths@, columns@),
                count == columns@.len(),
                c <= count,
                tops@.len() == c,
                forall|x: int| 0 <= x < c ==> col_top(g, #[trigger] columns@[x]@, columns@[x]@.len() as int) <= EXTENT_LIMIT,
                forall|x: int| 0 <= x < c ==> (#[trigger] tops@[x])@.len() == columns@[x]@.len() + 1
                    && forall|p: int| 0 <= p <= columns@[x]@.len() ==> #[trigger] tops@[x]@[p] == col_top(g, columns@[x]@, p),
            decreases count - c,
        {
            proof {
                assert(crate::columns::is_column(g, depths@, c, columns@[c as int]@));
            }
            match column_tops(graph.instances(), &columns[c]) {
                Some(t) => {
                    let h = t[columns[c].len()];
                    if h > clear_y {
                        clear_y = h;
                    }
                    tops.push(t);
                },
                None => {
                    assert(!extent_fits(g, depths@, columns@, conns@));
                    return Err(LayoutError::TooLarge);
                },
            }
            c += 1;
        }
        let mut xs: Vec<usize> = Vec::new();
        let mut k: usize = 0;
        while k < count
            invariant
                k <= count,
                xs@.len() == k,
            decreases count - k,
        {
            xs.push(0);
            k += 1;
        }
        if count > 0 {
            let mut x: usize = MARGIN;
            let mut c: usize = count - 1;
            xs.set(c, x);
            while c > 0
                invariant
                    g == graph.instances_view(),
                    !has_overlong_chain(g),
                    is_longest_depth(g, depths@),
                    conns_exact(g, conns@),
                    is_column_layout(g, depths@, columns@),
                    count == columns@.len(),
                    0 <= c < count,
                    xs@.len() == count,
                    into@.len() == count,
                    skip@.len() == count,
                    forall|y: int| 0 <= y < count ==> #[trigger] into@[y] == count_into(conns@, depths@, y)
                        && skip@[y] == count_skip(conns@, depths@, y),
                    x == col_x(conns@, depths@, count as int, c as int),
                    x <= EXTENT_LIMIT,
                    forall|y: int| c <= y < count ==> #[trigger] xs@[y] == col_x(conns@, depths@, count as int, y),
                decreases c,
            {
                let a = into[c - 1];
                let b = skip[c - 1];
                if a > EXTENT_LIMIT || b > EXTENT_LIMIT {
                    proof {
                        lemma_col_x_grows(conns@, depths@, count as int, c - 1);
                        assert(!extent_fits(g, depths@, columns@, conns@));
                    }
                    return Err(LayoutError::TooLarge);
                }
                let gw: usize = (if a == 0 { 1 } else { a }) + b + 2;
                if gw > EXTENT_LIMIT || x + BOX_WIDTH + gw > EXTENT_LIMIT {
                    proof {
                        lemma_col_x_grows(conns@, depths@, count as int, c - 1);
                        assert(!extent_fits(g, depths@, columns@, conns@));
                    }
                    return Err(LayoutError::TooLarge);
                }
                x = x + BOX_WIDTH + gw;
                c -= 1;
                xs.set(c, x);
            }
            if x + BOX_WIDTH + MARGIN > EXTENT_LIMIT {
                assert(!extent_fits(g, depths@, columns@, conns@));
                return Err(LayoutError::TooLarge);
            }
        }
        proof {
            lemma_max_height_bounds(g, columns@, count as int);
        }
        let long = long_count(&conns, &depths, conns.len());
        proof {
            assert(conns@.take(conns@.len() as int) =~= conns@);
        }
        if long > EXTENT_LIMIT - clear_y {
            proof {
                assert(!extent_fits(g, depths@, columns@, conns@));
            }
            return Err(LayoutError::TooLarge);
        }
        let r = Diagram { graph, depths, columns, conns, into, skip, xs, tops, clear_y };
        proof {
            assert(extent_fits(g, r.depths@, r.columns@, r.conns@));
            assert(r.graph_view() == g);
            assert(r.clear_y == max_height(g, r.columns@, count as int));
            assert(r.wf());
        }
        Ok(r)
    }
}

} // verus!

use vstd::prelude::*;
use crate::graph::{connects, no_reserved_id, socket_target, Instance, NO_CONNECTION};
use crate::layering::{is_longest_depth, lemma_fed_instance_depth, lemma_reach_fold, lemma_reach_unfold, lemma_unfed_instance_depth_zero, reach};

verus! {

/// `a` is placed above `b`: a smaller stored y, or the same y and an earlier position.
pub open spec fn placed_before(g: Seq<Instance>, a: usize, b: usize) -> bool {
    g[a as int].y_hint < g[b as int].y_hint || (g[a as int].y_hint == g[b as int].y_hint && a < b)
}

pub open spec fn column_ordered(g: Seq<Instance>, col: Seq<usize>) -> bool {
    forall|p: int, q: int| 0 <= p < q < col.len() ==> #[trigger] placed_before(g, col[p], col[q])
}

/// `col` holds exactly the instances of depth `c`, top to bottom.
pub open spec fn is_column(g: Seq<Instance>, d: Seq<usize>, c: usize, col: Seq<usize>) -> bool {
    &&& column_ordered(g, col)
    &&& forall|p: int| 0 <= p < col.len() ==> #[trigger] col[p] < g.len() && d[col[p] as int] == c
    &&& forall|j: int| 0 <= j < g.len() && d[j] == c ==> col.contains(j as usize)
}

/// `cols` is one column per depth from 0 to the largest depth, each as `is_column` says.
pub open spec fn is_column_layout(g: Seq<Instance>, d: Seq<usize>, cols: Seq<Vec<usize>>) -> bool {
    &&& d.len() == g.len()
    &&& forall|j: int| 0 <= j < g.len() ==> #[trigger] d[j] < cols.len()
    &&& g.len() > 0 ==> exists|j: int| 0 <= j < g.len() && #[trigger] d[j] + 1 == cols.len()
    &&& g.len() == 0 ==> cols.len() == 0
    &&& forall|c: int| 0 <= c < cols.len() ==> is_column(g, d, c as usize, #[trigger] cols[c]@)
}

/// The instances of depth `c`, ordered by stored y (stable on equal y).
fn column_of(instances: &Vec<Instance>, depths: &Vec<usize>, c: usize) -> (col: Vec<usize>)
    requires
        depths@.len() == instances@.len(),
    ensures
        is_column(instances@, depths@, c, col@),
{
    let ghost g = instances@;
    let n = instances.len();
    let mut col: Vec<usize> = Vec::new();
    let mut j: usize = 0;
    while j < n
        invariant
            g == instances@,
            n == g.len(),
            depths@.len() == n,
            j <= n,
            column_ordered(g, col@),
            forall|p: int| 0 <= p < col@.len() ==> #[trigger] col@[p] < j && depths@[col@[p] as int] == c,
            forall|x: int| 0 <= x < j && depths@[x] == c ==> col@.contains(x as usize),
        decreases n - j,
    {
        if depths[j] == c {
            let y = instances[j].y_hint;
            let mut p: usize = 0;
            while p < col.len() && instances[col[p]].y_hint <= y
                invariant
                    g == instances@,
                    n == g.len(),
                    j < n,
                    y == g[j as int].y_hint,
                    p <= col@.len(),
                    forall|q: int| 0 <= q < col@.len() ==> #[trigger] col@[q] < j,
                    forall|q: int| 0 <= q < p ==> #[trigger] g[col@[q] as int].y_hint <= y,
                decreases col@.len() - p,
            {
                p += 1;
            }
            let ghost old_col = col@;
            col.insert(p, j);
            proof {
                assert(col@ == old_col.insert(p as int, j));
                assert forall|a: int, b: int| 0 <= a < b < col@.len() implies #[trigger] placed_before(g, col@[a], col@[b]) by {
                    if b < p {
                        assert(placed_before(g, old_col[a], old_col[b]));
                    } else if b == p {
                        assert(col@[a] == old_col[a]);
                    } else if a < p {
                        assert(placed_before(g, old_col[a], old_col[b - 1]));
                    } else if a == p {
                        assert(g[old_col[p as int] as int].y_hint > y);
                        if p < b - 1 {
                            assert(placed_before(g, old_col[p as int], old_col[b - 1]));
                        }
                    } else {
                        assert(placed_before(g, old_col[a - 1], old_col[b - 1]));
                    }
                }
                assert forall|x: int| 0 <= x < j + 1 && depths@[x] == c implies col@.contains(x as usize) by {
                    if x == j {
                        assert(col@[p as int] == j);
                    } else {
                        assert(old_col.contains(x as usize));
                        let q = choose|q: int| 0 <= q < old_col.len() && old_col[q] == x as usize;
                        if q < p {
                            assert(col@[q] == x as usize);
                        } else {
                            assert(col@[q + 1] == x as usize);
                        }
                    }
                }
            }
        }
        j += 1;
    }
    col
}

/// Groups instances into columns by depth: column `c` holds the instances of
/// depth `c`, ordered by stored y.
pub fn build_columns(instances: &Vec<Instance>, depths: &Vec<usize>) -> (cols: Vec<Vec<usize>>)
    requires
        depths@.len() == instances@.len(),
        forall|j: int| 0 <= j < depths@.len() ==> #[trigger] depths@[j] < depths@.len(),
    ensures
        is_column_layout(instances@, depths@, cols@),
{
    let n = depths.len();
    let mut count: usize = 0;
    let mut j: usize = 0;
    while j < n
        invariant
            n == depths@.len(),
            j <= n,
            forall|x: int| 0 <= x < n ==> #[trigger] depths@[x] < n,
            count <= n,
            forall|x: int| 0 <= x < j ==> #[trigger] depths@[x] < count,
            j == 0 ==> count == 0,
            j > 0 ==> exists|x: int| 0 <= x < j && #[trigger] depths@[x] + 1 == count,
        decreases n - j,
    {
        if depths[j] + 1 > count {
            count = depths[j] + 1;
        }
        j += 1;
    }
    let mut cols: Vec<Vec<usize>> = Vec::new();
    let mut c: usize = 0;
    while c < count
        invariant
            n == depths@.len(),
            depths@.len() == instances@.len(),
            c <= count,
            cols@.len() == c,
            forall|k: int| 0 <= k < c ==> is_column(instances@, depths@, k as usize, #[trigger] cols@[k]@),
        decreases count - c,
    {
        let col = column_of(instances, depths, c);
        cols.push(col);
        c += 1;
    }
    cols
}

/// Some instance has depth exactly `c` whenever some instance is deeper.
proof fn lemma_depth_levels_filled(g: Seq<Instance>, d: Seq<usize>, top: int, c: int)
    requires
        is_longest_depth(g, d),
        0 <= top < g.len(),
        0 <= c <= d[top],
    ensures
        exists|j: int| 0 <= j < g.len() && #[trigger] d[j] == c,
    decreases d[top] - c,
{
    if c < d[top] {
        lemma_depth_levels_filled(g, d, top, c + 1);
        let j = choose|j: int| 0 <= j < g.len() && #[trigger] d[j] == c + 1;
        if forall|i: int| !#[trigger] crate::graph::connects(g, i, j) {
            lemma_unfed_instance_depth_zero(g, d, j);
        }
        lemma_fed_instance_depth(g, d, j);
        let i = choose|i: int| #[trigger] crate::graph::connects(g, i, j) && d[j] == d[i] + 1;
        assert(d[i] == c);
    }
}

/// The columns partition the instances: each instance stands in exactly one
/// column (the one of its depth), exactly once; the columns are numbered
/// without gaps from 0 to the largest depth and none is empty; and no column
/// holds an instance with the reserved "no connection" id.
pub proof fn lemma_columns_partition(g: Seq<Instance>, d: Seq<usize>, cols: Seq<Vec<usize>>)
    requires
        is_longest_depth(g, d),
        is_column_layout(g, d, cols),
        no_reserved_id(g),
    ensures
        forall|j: int| 0 <= j < g.len() ==> #[trigger] cols[d[j] as int]@.contains(j as usize),
        forall|c: int, p: int| 0 <= c < cols.len() && 0 <= p < cols[c]@.len() ==>
            #[trigger] cols[c]@[p] < g.len() && d[cols[c]@[p] as int] == c,
        forall|c: int, p: int, q: int| 0 <= c < cols.len() && 0 <= p < cols[c]@.len() && 0 <= q
            < cols[c]@.len() && #[trigger] cols[c]@[p] == #[trigger] cols[c]@[q] ==> p == q,
        forall|c: int| 0 <= c < cols.len() ==> #[trigger] cols[c]@.len() > 0,
        forall|c: int, p: int| 0 <= c < cols.len() && 0 <= p < cols[c]@.len() ==>
            g[#[trigger] cols[c]@[p] as int].id != NO_CONNECTION,
{
    assert forall|j: int| 0 <= j < g.len() implies #[trigger] cols[d[j] as int]@.contains(j as usize) by {
        assert(is_column(g, d, d[j], cols[d[j] as int]@));
    }
    assert forall|c: int, p: int| 0 <= c < cols.len() && 0 <= p < cols[c]@.len() implies
        #[trigger] cols[c]@[p] < g.len() && d[cols[c]@[p] as int] == c by {
        assert(is_column(g, d, c as usize, cols[c]@));
    }
    assert forall|c: int, p: int, q: int| 0 <= c < cols.len() && 0 <= p < cols[c]@.len() && 0 <= q
        < cols[c]@.len() && #[trigger] cols[c]@[p] == #[trigger] cols[c]@[q] implies p == q by {
        assert(is_column(g, d, c as usize, cols[c]@));
        if p < q {
            assert(placed_before(g, cols[c]@[p], cols[c]@[q]));
        } else if q < p {
            assert(placed_before(g, cols[c]@[q], cols[c]@[p]));
        }
    }
    assert forall|c: int| 0 <= c < cols.len() implies #[trigger] cols[c]@.len() > 0 by {
        let top = choose|j: int| 0 <= j < g.len() && #[trigger] d[j] + 1 == cols.len();
        lemma_depth_levels_filled(g, d, top, c);
        let j = choose|j: int| 0 <= j < g.len() && #[trigger] d[j] == c;
        assert(is_column(g, d, c as usize, cols[c]@));
        assert(cols[c]@.contains(j as usize));
    }
    assert forall|c: int, p: int| 0 <= c < cols.len() && 0 <= p < cols[c]@.len() implies
        g[#[trigger] cols[c]@[p] as int].id != NO_CONNECTION by {
        assert(is_column(g, d, c as usize, cols[c]@));
    }
}

/// Instance `i` has a socket connected to an instance with id `t`.
pub open spec fn feeds_from(inst: Instance, t: usize) -> bool {
    exists|s: int| 0 <= s < inst.sockets@.len() && #[trigger] socket_target(inst.sockets@[s]) == Some(t)
}

/// Two tables that differ at most in the order of each instance's sockets and
/// in sockets that connect nowhere (a literal, or the reserved id).
pub open spec fn same_connections(g1: Seq<Instance>, g2: Seq<Instance>) -> bool {
    &&& g1.len() == g2.len()
    &&& forall|i: int| 0 <= i < g1.len() ==> #[trigger] g1[i].id == g2[i].id && g1[i].y_hint == g2[i].y_hint
    &&& forall|i: int, t: usize| 0 <= i < g1.len() ==> (feeds_from(g1[i], t) <==> #[trigger] feeds_from(g2[i], t))
}

proof fn lemma_same_reach(g1: Seq<Instance>, g2: Seq<Instance>, k: nat, j: int)
    requires
        same_connections(g1, g2),
    ensures
        reach(g1, k, j) == reach(g2, k, j),
    decreases k,
{
    assert forall|i: int, x: int| connects(g1, i, x) <==> connects(g2, i, x) by {
        if 0 <= i < g1.len() && 0 <= x < g1.len() {
            assert(g1[x].id == g2[x].id);
            assert(feeds_from(g1[i], g1[x].id) <==> feeds_from(g2[i], g1[x].id));
            if connects(g1, i, x) {
                let s = choose|s: int| 0 <= s < g1[i].sockets@.len() && socket_target(g1[i].sockets@[s]) == Some(g1[x].id);
                assert(feeds_from(g1[i], g1[x].id));
            }
            if connects(g2, i, x) {
                let s = choose|s: int| 0 <= s < g2[i].sockets@.len() && socket_target(g2[i].sockets@[s]) == Some(g2[x].id);
                assert(feeds_from(g2[i], g2[x].id));
            }
        }
    }
    if k > 0 {
        if reach(g1, k, j) {
            lemma_reach_unfold(g1, j, k);
            let i = choose|i: int| connects(g1, i, j) && reach(g1, (k - 1) as nat, i);
            lemma_same_reach(g1, g2, (k - 1) as nat, i);
            lemma_reach_fold(g2, i, j, (k - 1) as nat);
        }
        if reach(g2, k, j) {
            lemma_reach_unfold(g2, j, k);
            let i = choose|i: int| connects(g2, i, j) && reach(g2, (k - 1) as nat, i);
            lemma_same_reach(g1, g2, (k - 1) as nat, i);
            lemma_reach_fold(g1, i, j, (k - 1) as nat);
        }
    }
}

/// Depths and columns depend on which instances feed which, and on the stored
/// y values, alone: reordering an instance's sockets, or a connection to the
/// reserved id in place of a literal, changes neither.
pub proof fn lemma_layout_ignores_socket_order(g1: Seq<Instance>, g2: Seq<Instance>, d: Seq<usize>, cols: Seq<Vec<usize>>)
    requires
        same_connections(g1, g2),
    ensures
        is_longest_depth(g1, d) <==> is_longest_depth(g2, d),
        is_column_layout(g1, d, cols) <==> is_column_layout(g2, d, cols),
{
    assert forall|l: nat, j: int| #[trigger] reach(g1, l, j) == reach(g2, l, j) by {
        lemma_same_reach(g1, g2, l, j);
    }
    if is_longest_depth(g1, d) {
        assert forall|j: int| 0 <= j < g2.len() implies #[trigger] reach(g2, d[j] as nat, j) by {
            lemma_same_reach(g1, g2, d[j] as nat, j);
        }
        assert forall|j: int, l: nat| 0 <= j < g2.len() && l > d[j] implies !#[trigger] reach(g2, l, j) by {
            lemma_same_reach(g1, g2, l, j);
        }
    }
    if is_longest_depth(g2, d) {
        assert forall|j: int| 0 <= j < g1.len() implies #[trigger] reach(g1, d[j] as nat, j) by {
            lemma_same_reach(g1, g2, d[j] as nat, j);
        }
        assert forall|j: int, l: nat| 0 <= j < g1.len() && l > d[j] implies !#[trigger] reach(g1, l, j) by {
            lemma_same_reach(g1, g2, l, j);
        }
    }
    assert forall|a: usize, b: usize| 0 <= a < g1.len() && 0 <= b < g1.len() implies placed_before(g1, a, b) == placed_before(g2, a, b) by {
        assert(g1[a as int].id == g2[a as int].id);
        assert(g1[b as int].id == g2[b as int].id);
    }
    assert forall|c: usize, col: Seq<usize>| is_column(g1, d, c, col) <==> is_column(g2, d, c, col) by {
        if is_column(g1, d, c, col) || is_column(g2, d, c, col) {
            assert forall|p: int, q: int| 0 <= p < q < col.len() implies placed_before(g1, col[p], col[q]) == placed_before(g2, col[p], col[q]) by {
                assert(col[p] < g1.len() && col[q] < g1.len());
                assert(g1[col[p] as int].id == g2[col[p] as int].id);
                assert(g1[col[q] as int].id == g2[col[q] as int].id);
            }
        }
    }
}

} // verus!

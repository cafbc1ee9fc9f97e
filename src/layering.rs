use vstd::prelude::*;
use vstd::set_lib::{lemma_int_range, lemma_len_subset, set_int_range};
use crate::graph::{connects, index_of, socket_target, table_wf, Instance, NodeGraph, Socket, NO_CONNECTION};

verus! {

/// Instance `j` ends a chain of exactly `k` connections, each leading from a
/// consumer to the instance that feeds it.
pub open spec fn reach(g: Seq<Instance>, k: nat, j: int) -> bool
    decreases k,
{
    if k == 0 {
        0 <= j < g.len()
    } else {
        exists|i: int| connects(g, i, j) && reach(g, (k - 1) as nat, i)
    }
}

/// `d` gives each instance the length of the longest chain that ends at it.
pub open spec fn is_longest_depth(g: Seq<Instance>, d: Seq<usize>) -> bool {
    &&& d.len() == g.len()
    &&& forall|j: int| 0 <= j < g.len() ==> #[trigger] reach(g, d[j] as nat, j)
    &&& forall|j: int, l: nat| 0 <= j < g.len() && l > d[j] ==> !#[trigger] reach(g, l, j)
}

/// Some chain has as many connections as there are instances: the graph has a cycle.
pub open spec fn has_overlong_chain(g: Seq<Instance>) -> bool {
    exists|j: int| 0 <= j < g.len() && #[trigger] reach(g, g.len(), j)
}

/// `s` lists instances each connected to the next, and the last to the first.
pub open spec fn is_cycle(g: Seq<Instance>, s: Seq<int>) -> bool {
    &&& s.len() >= 1
    &&& forall|i: int| 0 <= i < s.len() - 1 ==> #[trigger] connects(g, s[i], s[i + 1])
    &&& connects(g, s.last(), s[0])
}

proof fn lemma_cycle_reaches(g: Seq<Instance>, s: Seq<int>, k: nat)
    requires
        is_cycle(g, s),
    ensures
        exists|i: int| 0 <= i < s.len() && #[trigger] reach(g, k, s[i]),
    decreases k,
{
    if k == 0 {
        assert(reach(g, 0, s[0]));
    } else {
        lemma_cycle_reaches(g, s, (k - 1) as nat);
        let i = choose|i: int| 0 <= i < s.len() && #[trigger] reach(g, (k - 1) as nat, s[i]);
        let j = if i + 1 < s.len() { i + 1 } else { 0 };
        if i + 1 < s.len() {
            assert(connects(g, s[i], s[i + 1]));
        }
        lemma_reach_fold(g, s[i], s[j], (k - 1) as nat);
        assert(reach(g, k, s[j]));
    }
}

/// Connections that form a cycle give an overlong chain, so `compute_depths`
/// refuses every graph that has one.
pub proof fn lemma_cycle_refused(g: Seq<Instance>, s: Seq<int>)
    requires
        is_cycle(g, s),
    ensures
        has_overlong_chain(g),
{
    lemma_cycle_reaches(g, s, g.len());
    let i = choose|i: int| 0 <= i < s.len() && #[trigger] reach(g, g.len(), s[i]);
    if g.len() == 0 {
        assert(connects(g, s.last(), s[0]));
    }
    lemma_reach_range(g, g.len(), s[i]);
}

/// The instances along a chain of `k` connections ending at `j`, first to last.
proof fn lemma_chain_walk(g: Seq<Instance>, k: nat, j: int) -> (w: Seq<int>)
    requires
        reach(g, k, j),
    ensures
        w.len() == k + 1,
        w[k as int] == j,
        forall|t: int| 0 <= t < k ==> #[trigger] connects(g, w[t], w[t + 1]),
        forall|t: int| 0 <= t <= k ==> 0 <= #[trigger] w[t] < g.len(),
    decreases k,
{
    if k == 0 {
        seq![j]
    } else {
        lemma_reach_unfold(g, j, k);
        let i = choose|i: int| connects(g, i, j) && reach(g, (k - 1) as nat, i);
        let w0 = lemma_chain_walk(g, (k - 1) as nat, i);
        let w = w0.push(j);
        assert forall|t: int| 0 <= t < k implies #[trigger] connects(g, w[t], w[t + 1]) by {
            if t < k - 1 {
                assert(connects(g, w0[t], w0[t + 1]));
            }
        }
        w
    }
}

/// A walk through more places than there are leaves some place twice.
proof fn lemma_walk_repeats(w: Seq<int>, n: int)
    requires
        n >= 0,
        w.len() == n + 1,
        forall|t: int| 0 <= t < w.len() ==> 0 <= #[trigger] w[t] < n,
    ensures
        exists|a: int, b: int| 0 <= a < b < w.len() && w[a] == w[b],
{
    if w.no_duplicates() {
        w.unique_seq_to_set();
        lemma_int_range(0, n);
        assert forall|x: int| w.to_set().contains(x) implies set_int_range(0, n).contains(x) by {
            let t = choose|t: int| 0 <= t < w.len() && w[t] == x;
            assert(0 <= w[t] < n);
        }
        lemma_len_subset(w.to_set(), set_int_range(0, n));
    }
    let (a, b) = choose|a: int, b: int| 0 <= a < w.len() && 0 <= b < w.len() && a != b && w[a] == w[b];
    if a < b {
        assert(w[a] == w[b]);
    } else {
        assert(w[b] == w[a]);
    }
}

/// An overlong chain passes some instance twice, so the connections form a
/// cycle: `compute_depths` fails exactly on graphs with a cycle.
pub proof fn lemma_overlong_chain_has_cycle(g: Seq<Instance>)
    requires
        has_overlong_chain(g),
    ensures
        exists|s: Seq<int>| is_cycle(g, s),
{
    let j = choose|j: int| 0 <= j < g.len() && #[trigger] reach(g, g.len(), j);
    let w = lemma_chain_walk(g, g.len(), j);
    lemma_walk_repeats(w, g.len() as int);
    let (a, b) = choose|a: int, b: int| 0 <= a < b < w.len() && w[a] == w[b];
    let s = w.subrange(a, b);
    assert forall|i: int| 0 <= i < s.len() - 1 implies #[trigger] connects(g, s[i], s[i + 1]) by {
        assert(connects(g, w[a + i], w[a + i + 1]));
    }
    let t = b - 1;
    assert(connects(g, w[t], w[t + 1]));
    assert(t + 1 == b);
    assert(is_cycle(g, s));
}

proof fn lemma_reach_range(g: Seq<Instance>, k: nat, j: int)
    requires
        reach(g, k, j),
    ensures
        0 <= j < g.len(),
{
    if k > 0 {
        lemma_reach_unfold(g, j, k);
    }
}

/// `g2` is `g1` with its instances reordered: instance `i` of `g1` stands at
/// `p[i]` in `g2`, and `q` undoes `p`.
pub open spec fn reordered(g1: Seq<Instance>, g2: Seq<Instance>, p: Seq<int>, q: Seq<int>) -> bool {
    &&& g1.len() == g2.len() && p.len() == g1.len() && q.len() == g1.len()
    &&& forall|i: int| 0 <= i < g1.len() ==> 0 <= #[trigger] p[i] < g1.len() && q[p[i]] == i && g2[p[i]] == g1[i]
    &&& forall|x: int| 0 <= x < g1.len() ==> 0 <= #[trigger] q[x] < g1.len() && p[q[x]] == x
}

proof fn lemma_reordered_reach(g1: Seq<Instance>, g2: Seq<Instance>, p: Seq<int>, q: Seq<int>, k: nat, j: int)
    requires
        reordered(g1, g2, p, q),
        0 <= j < g1.len(),
    ensures
        reach(g1, k, j) == reach(g2, k, p[j]),
    decreases k,
{
    if k > 0 {
        if reach(g1, k, j) {
            lemma_reach_unfold(g1, j, k);
            let i = choose|i: int| connects(g1, i, j) && reach(g1, (k - 1) as nat, i);
            lemma_reordered_reach(g1, g2, p, q, (k - 1) as nat, i);
            assert(g2[p[i]] == g1[i] && g2[p[j]] == g1[j]);
            assert(connects(g2, p[i], p[j]));
            lemma_reach_fold(g2, p[i], p[j], (k - 1) as nat);
        }
        if reach(g2, k, p[j]) {
            lemma_reach_unfold(g2, p[j], k);
            let i2 = choose|i2: int| connects(g2, i2, p[j]) && reach(g2, (k - 1) as nat, i2);
            let i = q[i2];
            assert(p[i] == i2);
            lemma_reordered_reach(g1, g2, p, q, (k - 1) as nat, i);
            assert(g2[p[i]] == g1[i] && g2[p[j]] == g1[j]);
            assert(connects(g1, i, j));
            lemma_reach_fold(g1, i, j, (k - 1) as nat);
        }
    }
}

/// Reordering the instance table moves each depth with its instance and
/// changes none: depths do not depend on the order instances are listed in.
pub proof fn lemma_depths_ignore_table_order(
    g1: Seq<Instance>,
    g2: Seq<Instance>,
    p: Seq<int>,
    q: Seq<int>,
    d1: Seq<usize>,
    d2: Seq<usize>,
)
    requires
        reordered(g1, g2, p, q),
        is_longest_depth(g1, d1),
        is_longest_depth(g2, d2),
    ensures
        forall|j: int| 0 <= j < g1.len() ==> d2[#[trigger] p[j]] == d1[j],
{
    assert forall|j: int| 0 <= j < g1.len() implies d2[#[trigger] p[j]] == d1[j] by {
        lemma_reordered_reach(g1, g2, p, q, d1[j] as nat, j);
        lemma_reordered_reach(g1, g2, p, q, d2[p[j]] as nat, j);
        assert(reach(g1, d1[j] as nat, j));
        assert(reach(g2, d2[p[j]] as nat, p[j]));
        if d2[p[j]] < d1[j] {
            assert(!reach(g2, d1[j] as nat, p[j]));
        }
        if d1[j] < d2[p[j]] {
            assert(!reach(g1, d2[p[j]] as nat, j));
        }
    }
}

/// Why no layout could be computed.
#[derive(Clone, Copy, Debug, PartialEq, Eq, Structural)]
pub enum LayoutError {
    /// The depth computation does not settle: the connections form a cycle.
    Cycle,
    /// The diagram would be wider or taller than the extent limit.
    TooLarge,
}

pub open spec fn adj_wf(adj: Seq<Vec<usize>>) -> bool {
    forall|i: int, k: int| 0 <= i < adj.len() && 0 <= k < adj[i]@.len() ==> #[trigger] adj[i]@[k] < adj.len()
}

pub(crate) proof fn lemma_reach_unfold(g: Seq<Instance>, j: int, m: nat)
    requires
        reach(g, m, j),
        m > 0,
    ensures
        exists|i: int| connects(g, i, j) && reach(g, (m - 1) as nat, i),
{
}

pub(crate) proof fn lemma_reach_fold(g: Seq<Instance>, i: int, j: int, m: nat)
    requires
        connects(g, i, j),
        reach(g, m, i),
    ensures
        reach(g, m + 1, j),
{
    assert(((m + 1) - 1) as nat == m);
}

/// An instance that feeds no other instance has depth 0.
pub proof fn lemma_unfed_instance_depth_zero(g: Seq<Instance>, d: Seq<usize>, j: int)
    requires
        is_longest_depth(g, d),
        0 <= j < g.len(),
        forall|i: int| !#[trigger] connects(g, i, j),
    ensures
        d[j] == 0,
{
    assert(reach(g, d[j] as nat, j));
    if d[j] > 0 {
        lemma_reach_unfold(g, j, d[j] as nat);
    }
}

/// An instance that feeds others lies one column beyond the deepest of them:
/// its depth exceeds every consumer's depth, and equals one more than some
/// consumer's depth. Where an instance is reached by chains of different
/// lengths, the longest one decides.
pub proof fn lemma_fed_instance_depth(g: Seq<Instance>, d: Seq<usize>, j: int)
    requires
        is_longest_depth(g, d),
        0 <= j < g.len(),
        exists|i: int| #[trigger] connects(g, i, j),
    ensures
        forall|i: int| #[trigger] connects(g, i, j) ==> d[j] >= d[i] + 1,
        exists|i: int| #[trigger] connects(g, i, j) && d[j] == d[i] + 1,
{
    assert forall|i: int| #[trigger] connects(g, i, j) implies d[j] >= d[i] + 1 by {
        assert(reach(g, d[i] as nat, i));
        lemma_reach_fold(g, i, j, d[i] as nat);
    }
    let i0 = choose|i: int| #[trigger] connects(g, i, j);
    assert(d[j] >= d[i0] + 1);
    assert(reach(g, d[j] as nat, j));
    lemma_reach_unfold(g, j, d[j] as nat);
    let i = choose|i: int| connects(g, i, j) && reach(g, (d[j] - 1) as nat, i);
    assert(d[j] >= d[i] + 1);
    assert(d[i] >= d[j] - 1) by {
        if d[i] < d[j] - 1 {
            assert(!reach(g, (d[j] - 1) as nat, i));
        }
    }
}

/// Once no chain has `l` connections, no longer chain exists.
proof fn lemma_no_longer_chain(g: Seq<Instance>, l: nat, m: nat, j: int)
    requires
        forall|x: int| !#[trigger] reach(g, l, x),
        m >= l,
    ensures
        !reach(g, m, j),
    decreases m - l,
{
    if m > l {
        if reach(g, m, j) {
            lemma_reach_unfold(g, j, m);
            let i = choose|i: int| connects(g, i, j) && reach(g, (m - 1) as nat, i);
            lemma_no_longer_chain(g, l, (m - 1) as nat, i);
        }
    }
}

/// Per instance, the positions of the instances that feed it.
fn resolve(instances: &Vec<Instance>) -> (adj: Vec<Vec<usize>>)
    requires
        table_wf(instances@),
    ensures
        adj@.len() == instances@.len(),
        adj_wf(adj@),
        forall|i: int, j: int| 0 <= i < adj@.len() && 0 <= j < adj@.len() ==>
            (adj@[i]@.contains(j as usize) <==> connects(instances@, i, j)),
{
    let g = Ghost(instances@);
    let n = instances.len();
    let mut adj: Vec<Vec<usize>> = Vec::new();
    let mut i: usize = 0;
    while i < n
        invariant
            g@ == instances@,
            table_wf(g@),
            n == g@.len(),
            i <= n,
            adj@.len() == i,
            forall|a: int, k: int| 0 <= a < i && 0 <= k < adj@[a]@.len() ==> #[trigger] adj@[a]@[k] < n,
            forall|a: int, j: int| 0 <= a < i && 0 <= j < n ==>
                (adj@[a]@.contains(j as usize) <==> connects(g@, a, j)),
        decreases n - i,
    {
        let sockets = &instances[i].sockets;
        let mut row: Vec<usize> = Vec::new();
        let mut s: usize = 0;
        while s < sockets.len()
            invariant
                g@ == instances@,
                table_wf(g@),
                n == g@.len(),
                i < n,
                sockets@ == g@[i as int].sockets@,
                s <= sockets@.len(),
                forall|k: int| 0 <= k < row@.len() ==> #[trigger] row@[k] < n,
                forall|j: int| 0 <= j < n ==> (#[trigger] row@.contains(j as usize) <==>
                    exists|s2: int| 0 <= s2 < s && socket_target(sockets@[s2]) == Some(g@[j].id)),
            decreases sockets@.len() - s,
        {
            let ghost old_row = row@;
            if let Socket::Connection(t, _) = sockets[s] {
                if t != NO_CONNECTION {
                    let found = index_of(instances, t);
                    assert(socket_target(sockets@[s as int]) == Some(t));
                    match found {
                        Some(m) => {
                            row.push(m);
                            assert forall|j: int| 0 <= j < n implies (#[trigger] row@.contains(j as usize) <==>
                                exists|s2: int| 0 <= s2 < s + 1 && socket_target(sockets@[s2]) == Some(g@[j].id)) by {
                                if row@.contains(j as usize) && j != m {
                                    assert(old_row.contains(j as usize)) by {
                                        let k = choose|k: int| 0 <= k < row@.len() && row@[k] == j as usize;
                                        assert(old_row[k] == row@[k]);
                                    }
                                }
                                if j == m {
                                    assert(row@[old_row.len() as int] == m);
                                }
                                if exists|s2: int| 0 <= s2 < s + 1 && socket_target(sockets@[s2]) == Some(g@[j].id) {
                                    let s2 = choose|s2: int| 0 <= s2 < s + 1 && socket_target(sockets@[s2]) == Some(g@[j].id);
                                    if s2 == s {
                                        assert(g@[j].id == g@[m as int].id);
                                        assert(j == m);
                                        assert(row@[old_row.len() as int] == m);
                                    } else {
                                        assert(old_row.contains(j as usize));
                                        let k = choose|k: int| 0 <= k < old_row.len() && old_row[k] == j as usize;
                                        assert(row@[k] == j as usize);
                                    }
                                }
                            }
                        },
                        None => {
                            assert(false);
                        },
                    }
                } else {
                    assert forall|j: int| 0 <= j < n implies (#[trigger] row@.contains(j as usize) <==>
                        exists|s2: int| 0 <= s2 < s + 1 && socket_target(sockets@[s2]) == Some(g@[j].id)) by {
                        if exists|s2: int| 0 <= s2 < s + 1 && socket_target(sockets@[s2]) == Some(g@[j].id) {
                            let s2 = choose|s2: int| 0 <= s2 < s + 1 && socket_target(sockets@[s2]) == Some(g@[j].id);
                            assert(s2 != s);
                        }
                    }
                }
            } else {
                assert forall|j: int| 0 <= j < n implies (#[trigger] row@.contains(j as usize) <==>
                    exists|s2: int| 0 <= s2 < s + 1 && socket_target(sockets@[s2]) == Some(g@[j].id)) by {
                    if exists|s2: int| 0 <= s2 < s + 1 && socket_target(sockets@[s2]) == Some(g@[j].id) {
                        let s2 = choose|s2: int| 0 <= s2 < s + 1 && socket_target(sockets@[s2]) == Some(g@[j].id);
                        assert(s2 != s);
                    }
                }
            }
            s += 1;
        }
        adj.push(row);
        assert forall|a: int, j: int| 0 <= a < i + 1 && 0 <= j < n implies
            (adj@[a]@.contains(j as usize) <==> connects(g@, a, j)) by {
            if a == i {
                assert(adj@[a]@ == row@);
            }
        }
        i += 1;
    }
    adj
}

/// The instances fed by any instance that is marked in `frontier`.
fn step(adj: &Vec<Vec<usize>>, frontier: &Vec<bool>) -> (next: Vec<bool>)
    requires
        frontier@.len() == adj@.len(),
        adj_wf(adj@),
    ensures
        next@.len() == adj@.len(),
        forall|j: int| 0 <= j < adj@.len() ==> (#[trigger] next@[j] <==> exists|i: int|
            0 <= i < adj@.len() && frontier@[i] && adj@[i]@.contains(j as usize)),
{
    let n = adj.len();
    let mut next: Vec<bool> = Vec::new();
    let mut j: usize = 0;
    while j < n
        invariant
            j <= n,
            next@.len() == j,
            forall|x: int| 0 <= x < j ==> !next@[x],
        decreases n - j,
    {
        next.push(false);
        j += 1;
    }
    let mut i: usize = 0;
    while i < n
        invariant
            n == adj@.len(),
            frontier@.len() == n,
            adj_wf(adj@),
            i <= n,
            next@.len() == n,
            forall|x: int| 0 <= x < n ==> (#[trigger] next@[x] <==> exists|a: int|
                0 <= a < i && frontier@[a] && adj@[a]@.contains(x as usize)),
        decreases n - i,
    {
        if frontier[i] {
            let row = &adj[i];
            let mut k: usize = 0;
            while k < row.len()
                invariant
                    n == adj@.len(),
                    frontier@.len() == n,
                    adj_wf(adj@),
                    i < n,
                    frontier@[i as int],
                    row@ == adj@[i as int]@,
                    k <= row@.len(),
                    next@.len() == n,
                    forall|x: int| 0 <= x < n ==> (#[trigger] next@[x] <==> (exists|a: int|
                        0 <= a < i && frontier@[a] && adj@[a]@.contains(x as usize))
                        || exists|kk: int| 0 <= kk < k && row@[kk] == x as usize),
                decreases row@.len() - k,
            {
                let t = row[k];
                assert(adj@[i as int]@[k as int] < n);
                next.set(t, true);
                k += 1;
            }
            assert forall|x: int| 0 <= x < n implies (#[trigger] next@[x] <==> exists|a: int|
                0 <= a < i + 1 && frontier@[a] && adj@[a]@.contains(x as usize)) by {
                if exists|kk: int| 0 <= kk < row@.len() && row@[kk] == x as usize {
                    assert(adj@[i as int]@.contains(x as usize));
                }
                if exists|a: int| 0 <= a < i + 1 && frontier@[a] && adj@[a]@.contains(x as usize) {
                    let a = choose|a: int| 0 <= a < i + 1 && frontier@[a] && adj@[a]@.contains(x as usize);
                    if a == i {
                        let kk = choose|kk: int| 0 <= kk < row@.len() && row@[kk] == x as usize;
                        assert(row@[kk] == x as usize);
                    }
                }
            }
        } else {
            assert forall|x: int| 0 <= x < n implies (#[trigger] next@[x] <==> exists|a: int|
                0 <= a < i + 1 && frontier@[a] && adj@[a]@.contains(x as usize)) by {
                if exists|a: int| 0 <= a < i + 1 && frontier@[a] && adj@[a]@.contains(x as usize) {
                    let a = choose|a: int| 0 <= a < i + 1 && frontier@[a] && adj@[a]@.contains(x as usize);
                    assert(a != i);
                }
            }
        }
        i += 1;
    }
    next
}

/// Computes each instance's depth (its column): the number of connections on
/// the longest chain from an instance that feeds nothing down to it, where a
/// chain leads from a consumer to the instance that feeds it. An instance that
/// feeds no other instance has depth 0. Fails when the connections form a cycle.
pub fn compute_depths(graph: &NodeGraph) -> (r: Result<Vec<usize>, LayoutError>)
    requires
        graph.wf(),
    ensures
        r is Err <==> has_overlong_chain(graph.instances_view()),
        r is Err <==> exists|s: Seq<int>| is_cycle(graph.instances_view(), s),
        r matches Err(e) ==> e == LayoutError::Cycle,
        r matches Ok(d) ==> is_longest_depth(graph.instances_view(), d@)
            && forall|j: int| 0 <= j < d@.len() ==> #[trigger] d@[j] < d@.len(),
{
    let instances = graph.instances();
    let ghost g = instances@;
    let adj = resolve(instances);
    let n = adj.len();
    let mut depth: Vec<usize> = Vec::new();
    let mut frontier: Vec<bool> = Vec::new();
    let mut j: usize = 0;
    while j < n
        invariant
            n == g.len(),
            j <= n,
            depth@.len() == j,
            frontier@.len() == j,
            forall|x: int| 0 <= x < j ==> depth@[x] == 0 && frontier@[x],
        decreases n - j,
    {
        depth.push(0);
        frontier.push(true);
        j += 1;
    }
    let mut level: usize = 0;
    loop
        invariant
            g == graph.instances_view(),
            n == g.len(),
            n == adj@.len(),
            adj_wf(adj@),
            forall|i: int, j: int| 0 <= i < n && 0 <= j < n ==>
                (adj@[i]@.contains(j as usize) <==> connects(g, i, j)),
            level <= n,
            depth@.len() == n,
            frontier@.len() == n,
            forall|x: int| 0 <= x < n ==> (#[trigger] frontier@[x] <==> reach(g, level as nat, x)),
            forall|x: int| 0 <= x < n ==> #[trigger] depth@[x] <= level && reach(g, depth@[x] as nat, x),
            forall|x: int, l: nat| 0 <= x < n && depth@[x] < l <= level ==> !#[trigger] reach(g, l, x),
        decreases n - level,
    {
        let mut any: bool = false;
        let mut x: usize = 0;
        while x < n
            invariant
                frontier@.len() == n,
                x <= n,
                any <==> exists|y: int| 0 <= y < x && frontier@[y],
            decreases n - x,
        {
            if frontier[x] {
                any = true;
            }
            x += 1;
        }
        if !any {
            proof {
                assert forall|y: int| !#[trigger] reach(g, level as nat, y) by {
                    if 0 <= y < n {
                        assert(!frontier@[y]);
                    }
                    if reach(g, level as nat, y) && level > 0 {
                        lemma_reach_unfold(g, y, level as nat);
                    }
                }
                assert forall|y: int, l: nat| 0 <= y < n && l > depth@[y] implies !#[trigger] reach(g, l, y) by {
                    if l > level {
                        lemma_no_longer_chain(g, level as nat, l, y);
                    }
                }
                assert forall|y: int| 0 <= y < n implies !#[trigger] reach(g, g.len(), y) by {
                    lemma_no_longer_chain(g, level as nat, n as nat, y);
                }
                assert forall|y: int| 0 <= y < n implies #[trigger] depth@[y] < n by {
                    assert(depth@[y] <= level && reach(g, depth@[y] as nat, y));
                    if depth@[y] == level {
                        assert(!frontier@[y]);
                    }
                }
                assert(g == graph.instances_view());
                assert(!has_overlong_chain(g));
                if exists|s: Seq<int>| is_cycle(g, s) {
                    let s = choose|s: Seq<int>| is_cycle(g, s);
                    lemma_cycle_refused(g, s);
                }
                assert(is_longest_depth(g, depth@));
            }
            return Ok(depth);
        }
        if level == n {
            proof {
                let y = choose|y: int| 0 <= y < n && frontier@[y];
                assert(reach(g, g.len(), y));
                lemma_overlong_chain_has_cycle(g);
            }
            return Err(LayoutError::Cycle);
        }
        let next = step(&adj, &frontier);
        proof {
            assert forall|y: int| 0 <= y < n implies (#[trigger] next@[y] <==> reach(g, (level + 1) as nat, y)) by {
                if next@[y] {
                    let i = choose|i: int| 0 <= i < n && frontier@[i] && adj@[i]@.contains(y as usize);
                    assert(connects(g, i, y));
                    assert(reach(g, level as nat, i));
                }
                if reach(g, (level + 1) as nat, y) {
                    lemma_reach_unfold(g, y, (level + 1) as nat);
                    let i = choose|i: int| connects(g, i, y) && reach(g, level as nat, i);
                    assert(frontier@[i]);
                    assert(adj@[i]@.contains(y as usize));
                }
            }
        }
        level += 1;
        let mut y: usize = 0;
        while y < n
            invariant
                n == g.len(),
                1 <= level <= n,
                depth@.len() == n,
                next@.len() == n,
                y <= n,
                forall|x: int| 0 <= x < n ==> (#[trigger] next@[x] <==> reach(g, level as nat, x)),
                forall|x: int| 0 <= x < y ==> #[trigger] depth@[x] <= level && reach(g, depth@[x] as nat, x),
                forall|x: int, l: nat| 0 <= x < y && depth@[x] < l <= level ==> !#[trigger] reach(g, l, x),
                forall|x: int| y <= x < n ==> #[trigger] depth@[x] <= level - 1 && reach(g, depth@[x] as nat, x),
                forall|x: int, l: nat| y <= x < n && depth@[x] < l <= level - 1 ==> !#[trigger] reach(g, l, x),
            decreases n - y,
        {
            if next[y] {
                depth.set(y, level);
            } else {
                assert(!reach(g, level as nat, y as int));
            }
            y += 1;
        }
        frontier = next;
    }
}

} // verus!

//! Shortest paths from one source with every equal-cost predecessor kept.
use vstd::prelude::*;
use vstd::set_lib::{lemma_int_range, lemma_len_subset, set_int_range};
use crate::topology::{
    adjacency_view, has_edge, is_shortest_dist, is_shortest_pred, is_walk, reachable, total,
    valid_graph, Graph,
};

verus! {

/// The rows of a table of router lists.
pub open spec fn lists_view(p: &Vec<Vec<usize>>) -> Seq<Seq<usize>> {
    p@.map_values(|row: Vec<usize>| row@)
}

/// The elements of `s` are in strictly increasing order.
pub open spec fn strictly_increasing(s: Seq<usize>) -> bool {
    forall|i: int, j: int| 0 <= i < j < s.len() ==> s[i] < s[j]
}

/// `p` lists, for every router `v`, in increasing order, the routers that
/// precede `v` on some shortest walk from `s` (`s` alone for `s` itself;
/// none for a router that cannot be reached).
pub open spec fn is_predecessor_table(g: Seq<Seq<(usize, i32)>>, s: int, p: Seq<Seq<usize>>) -> bool {
    &&& p.len() == g.len()
    &&& forall|v: int| 0 <= v < p.len() ==> strictly_increasing(#[trigger] p[v])
    &&& forall|v: int, i: int| 0 <= v < p.len() && 0 <= i < p[v].len() ==> (#[trigger] p[v][i]) < g.len()
    &&& forall|v: int, u: int|
        #![trigger p[v].contains(u as usize)]
        #![trigger is_shortest_pred(g, s, v, u)]
        0 <= v < p.len() && 0 <= u < g.len() ==> (p[v].contains(u as usize) <==> is_shortest_pred(g, s, v, u))
}

/// An upper bound on every metric, used to bound distances.
pub open spec fn metric_bound() -> int {
    0x8000_0000
}

/// Labels `dist` over the routers marked in `known` that are locally
/// optimal: the source is at 0, every adjacency of a known router leads to a
/// known router and does not undercut its label, and every other known
/// router is reached by a tight adjacency from a known one.
pub open spec fn optimal_labels(
    g: Seq<Seq<(usize, i32)>>,
    s: int,
    known: Seq<bool>,
    dist: Seq<u128>,
) -> bool {
    &&& known.len() == g.len()
    &&& dist.len() == g.len()
    &&& 0 <= s < g.len()
    &&& known[s]
    &&& dist[s] == 0
    &&& forall|u: int, k: int|
        #![trigger known[u], g[u][k]]
        0 <= u < g.len() && known[u] && 0 <= k < g[u].len() ==> known[g[u][k].0 as int]
            && dist[g[u][k].0 as int] <= dist[u] + g[u][k].1
    &&& forall|v: int|
        #![trigger known[v]]
        0 <= v < g.len() && known[v] && v != s ==> exists|u: int, k: int|
            #![trigger g[u][k]]
            0 <= u < g.len() && known[u] && 0 <= k < g[u].len() && g[u][k].0 == v && dist[u]
                + g[u][k].1 == dist[v]
}

/// `u` reaches `v` by an adjacency that is tight for the labels.
pub open spec fn tight_pred(
    g: Seq<Seq<(usize, i32)>>,
    known: Seq<bool>,
    dist: Seq<u128>,
    v: int,
    u: int,
) -> bool {
    &&& 0 <= u < g.len()
    &&& 0 <= v < g.len()
    &&& known[u]
    &&& known[v]
    &&& exists|k: int|
        0 <= k < g[u].len() && (#[trigger] g[u][k]).0 == v && dist[u] + g[u][k].1 == dist[v]
}

proof fn lemma_walk_prefix(g: Seq<Seq<(usize, i32)>>, s: int, v: int, nodes: Seq<int>, ws: Seq<int>)
    requires
        is_walk(g, s, v, nodes, ws),
        ws.len() > 0,
    ensures
        is_walk(g, s, nodes[nodes.len() - 2], nodes.drop_last(), ws.drop_last()),
        has_edge(g, nodes[nodes.len() - 2], v, ws.last()),
        total(ws) == total(ws.drop_last()) + ws.last(),
{
    let pn = nodes.drop_last();
    let pw = ws.drop_last();
    assert forall|i: int| 0 <= i < pw.len() implies has_edge(g, #[trigger] pn[i], pn[i + 1], pw[i]) by {
        assert(has_edge(g, nodes[i], nodes[i + 1], ws[i]));
    }
    assert(has_edge(g, nodes[ws.len() - 1], nodes[ws.len() as int], ws[ws.len() - 1]));
}

/// Every walk from the source costs at least the label of its end, whose
/// label is known.
proof fn lemma_walk_bound(
    g: Seq<Seq<(usize, i32)>>,
    s: int,
    known: Seq<bool>,
    dist: Seq<u128>,
    v: int,
    nodes: Seq<int>,
    ws: Seq<int>,
)
    requires
        valid_graph(g),
        optimal_labels(g, s, known, dist),
        is_walk(g, s, v, nodes, ws),
    ensures
        0 <= v < g.len(),
        known[v],
        dist[v] <= total(ws),
    decreases ws.len(),
{
    if ws.len() > 0 {
        lemma_walk_prefix(g, s, v, nodes, ws);
        let u = nodes[nodes.len() - 2];
        lemma_walk_bound(g, s, known, dist, u, nodes.drop_last(), ws.drop_last());
        let k = choose|k: int|
            0 <= k < g[u].len() && (#[trigger] g[u][k]).0 as int == v && g[u][k].1 as int
                == ws.last();
        assert(known[u] && 0 <= k < g[u].len());
    }
}

/// A known router is reached from the source by a walk that costs its label.
proof fn lemma_walk_exists(
    g: Seq<Seq<(usize, i32)>>,
    s: int,
    known: Seq<bool>,
    dist: Seq<u128>,
    v: int,
) -> (r: (Seq<int>, Seq<int>))
    requires
        valid_graph(g),
        optimal_labels(g, s, known, dist),
        0 <= v < g.len(),
        known[v],
    ensures
        is_walk(g, s, v, r.0, r.1),
        total(r.1) == dist[v],
    decreases dist[v],
{
    if v == s {
        let r = (seq![s], Seq::<int>::empty());
        assert(total(r.1) == 0);
        r
    } else {
        assert(known[v]);
        let (u, k) = choose|u: int, k: int|
            #![trigger g[u][k]]
            0 <= u < g.len() && known[u] && 0 <= k < g[u].len() && g[u][k].0 == v && dist[u]
                + g[u][k].1 == dist[v];
        assert(g[u][k].1 > 0);
        let (pn, pw) = lemma_walk_exists(g, s, known, dist, u);
        let w = g[u][k].1 as int;
        let nodes = pn.push(v);
        let ws = pw.push(w);
        assert(ws.drop_last() =~= pw);
        assert forall|i: int| 0 <= i < ws.len() implies has_edge(
            g,
            #[trigger] nodes[i],
            nodes[i + 1],
            ws[i],
        ) by {
            if i < pw.len() {
                assert(has_edge(g, pn[i], pn[i + 1], pw[i]));
            } else {
                assert(g[u][k].0 as int == v);
            }
        }
        (nodes, ws)
    }
}

/// Locally optimal labels are the shortest distances, and the routers they
/// leave unknown cannot be reached.
proof fn lemma_labels_are_distances(
    g: Seq<Seq<(usize, i32)>>,
    s: int,
    known: Seq<bool>,
    dist: Seq<u128>,
    v: int,
)
    requires
        valid_graph(g),
        optimal_labels(g, s, known, dist),
    ensures
        0 <= v < g.len() && known[v] ==> is_shortest_dist(g, s, v, dist[v] as int),
        !(0 <= v < g.len() && known[v]) ==> !reachable(g, s, v),
        forall|d: int| is_shortest_dist(g, s, v, d) ==> 0 <= v < g.len() && known[v] && d == dist[v],
{
    if 0 <= v < g.len() && known[v] {
        let (nodes, ws) = lemma_walk_exists(g, s, known, dist, v);
        assert forall|nodes2: Seq<int>, ws2: Seq<int>| is_walk(g, s, v, nodes2, ws2) implies dist[v]
            <= total(ws2) by {
            lemma_walk_bound(g, s, known, dist, v, nodes2, ws2);
        }
        assert(is_walk(g, s, v, nodes, ws) && total(ws) == dist[v]);
    }
    if reachable(g, s, v) {
        let (nodes, ws) = choose|nodes: Seq<int>, ws: Seq<int>| is_walk(g, s, v, nodes, ws);
        lemma_walk_bound(g, s, known, dist, v, nodes, ws);
    }
    assert forall|d: int| is_shortest_dist(g, s, v, d) implies 0 <= v < g.len() && known[v] && d
        == dist[v] by {
        let (nodes, ws) = choose|nodes: Seq<int>, ws: Seq<int>|
            is_walk(g, s, v, nodes, ws) && total(ws) == d;
        lemma_walk_bound(g, s, known, dist, v, nodes, ws);
        let (n2, w2) = lemma_walk_exists(g, s, known, dist, v);
    }
}

/// Under locally optimal labels, the shortest-path predecessors of a router
/// other than the source are the routers with a tight adjacency to it.
proof fn lemma_pred_is_tight(
    g: Seq<Seq<(usize, i32)>>,
    s: int,
    known: Seq<bool>,
    dist: Seq<u128>,
    v: int,
    u: int,
)
    requires
        valid_graph(g),
        optimal_labels(g, s, known, dist),
        v != s,
    ensures
        is_shortest_pred(g, s, v, u) <==> tight_pred(g, known, dist, v, u),
{
    lemma_labels_are_distances(g, s, known, dist, u);
    lemma_labels_are_distances(g, s, known, dist, v);
    if is_shortest_pred(g, s, v, u) {
        let (du, w) = choose|du: int, w: int|
            is_shortest_dist(g, s, u, du) && has_edge(g, u, v, w) && is_shortest_dist(g, s, v, du + w);
        let k = choose|k: int|
            0 <= k < g[u].len() && (#[trigger] g[u][k]).0 as int == v && g[u][k].1 as int == w;
        assert(tight_pred(g, known, dist, v, u));
    }
    if tight_pred(g, known, dist, v, u) {
        let k = choose|k: int|
            0 <= k < g[u].len() && (#[trigger] g[u][k]).0 == v && dist[u] + g[u][k].1 == dist[v];
        let w = g[u][k].1 as int;
        assert(has_edge(g, u, v, w));
        assert(is_shortest_dist(g, s, u, dist[u] as int));
        assert(is_shortest_dist(g, s, v, dist[u] + w));
    }
}

/// Whether every adjacency names a router of the graph and has a positive
/// metric.
fn check_graph(adj: &Vec<Vec<(usize, i32)>>) -> (r: bool)
    ensures
        r == valid_graph(adjacency_view(adj)),
{
    let ghost g = adjacency_view(adj);
    let n = adj.len();
    let mut u: usize = 0;
    while u < n
        invariant
            n == g.len(),
            g == adjacency_view(adj),
            u <= n,
            forall|x: int, k: int|
                0 <= x < u && 0 <= k < g[x].len() ==> (#[trigger] g[x][k]).0 < n && g[x][k].1 > 0,
        decreases n - u,
    {
        let row = &adj[u];
        let mut k: usize = 0;
        while k < row.len()
            invariant
                n == g.len(),
                g == adjacency_view(adj),
                u < n,
                row@ == g[u as int],
                k <= row.len(),
                forall|x: int, j: int|
                    0 <= x < u && 0 <= j < g[x].len() ==> (#[trigger] g[x][j]).0 < n && g[x][j].1
                        > 0,
                forall|j: int| 0 <= j < k ==> (#[trigger] g[u as int][j]).0 < n && g[u as int][j].1 > 0,
            decreases row.len() - k,
        {
            if row[k].0 >= n || row[k].1 <= 0 {
                assert(!(g[u as int][k as int].0 < n && g[u as int][k as int].1 > 0));
                return false;
            }
            k = k + 1;
        }
        u = u + 1;
    }
    true
}

/// The adjacency lists of a graph, as vectors.
fn adjacency_lists<G: Graph>(graph: &G) -> (r: Vec<Vec<(usize, i32)>>)
    ensures
        adjacency_view(&r) == graph.adjacency(),
{
    let n = graph.node_count();
    let mut r: Vec<Vec<(usize, i32)>> = Vec::new();
    let mut u: usize = 0;
    while u < n
        invariant
            n == graph.adjacency().len(),
            u <= n,
            r@.len() == u,
            adjacency_view(&r) =~= graph.adjacency().subrange(0, u as int),
        decreases n - u,
    {
        let row = graph.get_successors(u);
        r.push(row);
        assert(adjacency_view(&r) =~= graph.adjacency().subrange(0, u + 1));
        u = u + 1;
    }
    r
}

/// The router not yet settled, among the labelled ones, with the smallest
/// label, if any.
fn closest_unsettled(known: &Vec<bool>, done: &Vec<bool>, dist: &Vec<u128>) -> (r: Option<usize>)
    requires
        known.len() == done.len(),
        dist.len() == done.len(),
    ensures
        r matches Some(u) ==> u < known.len() && known[u as int] && !done[u as int] && forall|y: int|
            0 <= y < known.len() && known[y] && !done[y] ==> dist[u as int] <= #[trigger] dist[y],
        r is None ==> forall|y: int| 0 <= y < known.len() && #[trigger] known[y] ==> done[y],
{
    let mut best: Option<usize> = None;
    let mut v: usize = 0;
    while v < known.len()
        invariant
            known.len() == done.len(),
            dist.len() == done.len(),
            v <= known.len(),
            best matches Some(u) ==> u < v && known[u as int] && !done[u as int] && forall|y: int|
                0 <= y < v && known[y] && !done[y] ==> dist[u as int] <= #[trigger] dist[y],
            best is None ==> forall|y: int| 0 <= y < v && #[trigger] known[y] ==> done[y],
        decreases known.len() - v,
    {
        if known[v] && !done[v] {
            match best {
                Some(b) => {
                    if dist[v] < dist[b] {
                        best = Some(v);
                    }
                },
                None => {
                    best = Some(v);
                },
            }
        }
        v = v + 1;
    }
    best
}

/// Shortest distances from `s`: `known[v]` tells whether `v` is reachable
/// and `dist[v]` is then its distance.
fn shortest_labels(adj: &Vec<Vec<(usize, i32)>>, s: usize) -> (r: (Vec<bool>, Vec<u128>))
    requires
        valid_graph(adjacency_view(adj)),
        s < adj.len(),
    ensures
        optimal_labels(adjacency_view(adj), s as int, r.0@, r.1@),
        forall|v: int|
            0 <= v < adj.len() && #[trigger] r.0[v] ==> r.1[v] <= adj.len() * metric_bound(),
{
    let ghost g = adjacency_view(adj);
    let n = adj.len();
    let mut known: Vec<bool> = Vec::new();
    let mut done: Vec<bool> = Vec::new();
    let mut dist: Vec<u128> = Vec::new();
    let mut i: usize = 0;
    while i < n
        invariant
            n == adj.len(),
            s < n,
            i <= n,
            known.len() == i && done.len() == i && dist.len() == i,
            forall|v: int|
                #![trigger known[v]]
                #![trigger done[v]]
                #![trigger dist[v]]
                0 <= v < i ==> !known[v] && !done[v] && dist[v] == 0,
        decreases n - i,
    {
        known.push(false);
        done.push(false);
        dist.push(0);
        i = i + 1;
    }
    known.set(s, true);
    let ghost mut settled: Set<int> = Set::empty();
    proof {
        lemma_int_range(0, n as int);
    }
    loop
        invariant
            n == g.len(),
            g == adjacency_view(adj),
            valid_graph(g),
            s < n,
            known.len() == n && done.len() == n && dist.len() == n,
            known[s as int],
            dist[s as int] == 0,
            forall|v: int| 0 <= v < n && #[trigger] done[v] ==> known[v],
            forall|v: int| #[trigger] settled.contains(v) <==> 0 <= v < n && done[v],
            settled.finite(),
            settled.subset_of(set_int_range(0, n as int)),
            set_int_range(0, n as int).finite(),
            set_int_range(0, n as int).len() == n,
            forall|u: int, k: int|
                #![trigger done[u], g[u][k]]
                0 <= u < n && done[u] && 0 <= k < g[u].len() ==> known[g[u][k].0 as int]
                    && dist[g[u][k].0 as int] <= dist[u] + g[u][k].1,
            forall|v: int|
                #![trigger known[v]]
                0 <= v < n && known[v] && v != s ==> exists|u: int, k: int|
                    #![trigger g[u][k]]
                    0 <= u < n && done[u] && 0 <= k < g[u].len() && g[u][k].0 == v && dist[u]
                        + g[u][k].1 == dist[v],
            forall|x: int, y: int|
                0 <= x < n && 0 <= y < n && #[trigger] done[x] && known[y] && !#[trigger] done[y]
                    ==> dist[x] <= dist[y],
            forall|v: int| 0 <= v < n && known[v] ==> #[trigger] dist[v] <= settled.len() * metric_bound(),
        ensures
            forall|v: int| 0 <= v < n && #[trigger] known[v] ==> done[v],
            forall|u: int, k: int|
                #![trigger done[u], g[u][k]]
                0 <= u < n && done[u] && 0 <= k < g[u].len() ==> known[g[u][k].0 as int]
                    && dist[g[u][k].0 as int] <= dist[u] + g[u][k].1,
            forall|v: int|
                #![trigger known[v]]
                0 <= v < n && known[v] && v != s ==> exists|u: int, k: int|
                    #![trigger g[u][k]]
                    0 <= u < n && done[u] && 0 <= k < g[u].len() && g[u][k].0 == v && dist[u]
                        + g[u][k].1 == dist[v],
            forall|v: int| 0 <= v < n && known[v] ==> #[trigger] dist[v] <= settled.len() * metric_bound(),
            settled.len() <= n,
        decreases n - settled.len(),
    {
        proof {
            lemma_len_subset(settled, set_int_range(0, n as int));
        }
        let u = match closest_unsettled(&known, &done, &dist) {
            Some(u) => u,
            None => break,
        };
        let ghost old_settled = settled;
        proof {
            settled = settled.insert(u as int);
            lemma_len_subset(settled, set_int_range(0, n as int));
        }
        done.set(u, true);
        let row = &adj[u];
        let du = dist[u];
        let mut k: usize = 0;
        while k < row.len()
            invariant
                n == g.len(),
                g == adjacency_view(adj),
                valid_graph(g),
                s < n,
                u < n,
                row@ == g[u as int],
                k <= row.len(),
                known.len() == n && done.len() == n && dist.len() == n,
                known[s as int],
                dist[s as int] == 0,
                done[u as int],
                dist[u as int] == du,
                forall|v: int| 0 <= v < n && #[trigger] done[v] ==> known[v],
                forall|v: int| #[trigger] settled.contains(v) <==> 0 <= v < n && done[v],
                settled.len() == old_settled.len() + 1,
                settled.len() <= n,
                du <= old_settled.len() * metric_bound(),
                forall|x: int| 0 <= x < n && #[trigger] done[x] ==> dist[x] <= du,
                forall|x: int, j: int|
                    #![trigger done[x], g[x][j]]
                    0 <= x < n && done[x] && 0 <= j < g[x].len() && (x != u || j < k) ==> known[g[x][j].0 as int]
                        && dist[g[x][j].0 as int] <= dist[x] + g[x][j].1,
                forall|v: int|
                    #![trigger known[v]]
                    0 <= v < n && known[v] && v != s ==> exists|x: int, j: int|
                        #![trigger g[x][j]]
                        0 <= x < n && done[x] && 0 <= j < g[x].len() && g[x][j].0 == v && dist[x]
                            + g[x][j].1 == dist[v],
                forall|x: int, y: int|
                    0 <= x < n && 0 <= y < n && #[trigger] done[x] && known[y] && !#[trigger] done[y]
                        ==> dist[x] <= dist[y],
                forall|v: int| 0 <= v < n && known[v] ==> #[trigger] dist[v] <= settled.len() * metric_bound(),
            decreases row.len() - k,
        {
            let (v, w) = row[k];
            assert(g[u as int][k as int] == (v, w));
            if !done[v] {
                let nd = du + w as u128;
                if !known[v] || nd < dist[v] {
                    dist.set(v, nd);
                    known.set(v, true);
                    assert(g[u as int][k as int].0 == v);
                }
            }
            k = k + 1;
        }
    }
    (known, dist)
}

/// Whether some adjacency from `u` to `v` is tight for the labels.
fn has_tight_adjacency(adj: &Vec<Vec<(usize, i32)>>, dist: &Vec<u128>, u: usize, v: usize) -> (r: bool)
    requires
        valid_graph(adjacency_view(adj)),
        dist.len() == adj.len(),
        u < adj.len(),
        v < adj.len(),
        dist[u as int] <= adj.len() * metric_bound(),
    ensures
        r == exists|k: int|
            0 <= k < adjacency_view(adj)[u as int].len() && (#[trigger] adjacency_view(adj)[u as int][k]).0
                == v && dist[u as int] + adjacency_view(adj)[u as int][k].1 == dist[v as int],
{
    let ghost g = adjacency_view(adj);
    let row = &adj[u];
    let mut k: usize = 0;
    while k < row.len()
        invariant
            g == adjacency_view(adj),
            valid_graph(g),
            dist.len() == adj.len(),
            u < adj.len(),
            v < adj.len(),
            dist[u as int] <= adj.len() * metric_bound(),
            row@ == g[u as int],
            k <= row.len(),
            forall|j: int|
                0 <= j < k ==> !((#[trigger] g[u as int][j]).0 == v && dist[u as int] + g[u as int][j].1
                    == dist[v as int]),
        decreases row.len() - k,
    {
        let (x, w) = row[k];
        assert(g[u as int][k as int] == (x, w));
        if x == v && dist[u] + w as u128 == dist[v] {
            return true;
        }
        k = k + 1;
    }
    false
}

/// The shortest-path predecessors of `v`, in increasing order.
fn predecessors_of(
    adj: &Vec<Vec<(usize, i32)>>,
    known: &Vec<bool>,
    dist: &Vec<u128>,
    s: usize,
    v: usize,
) -> (row: Vec<usize>)
    requires
        valid_graph(adjacency_view(adj)),
        optimal_labels(adjacency_view(adj), s as int, known@, dist@),
        forall|x: int| 0 <= x < adj.len() && #[trigger] known[x] ==> dist[x] <= adj.len() * metric_bound(),
        v < adj.len(),
    ensures
        strictly_increasing(row@),
        forall|i: int| 0 <= i < row.len() ==> #[trigger] row[i] < adj.len(),
        forall|u: int|
            0 <= u < adj.len() ==> (row@.contains(u as usize) <==> #[trigger] is_shortest_pred(
                adjacency_view(adj),
                s as int,
                v as int,
                u,
            )),
{
    let ghost g = adjacency_view(adj);
    let n = adj.len();
    if v == s {
        let row = vec![s];
        assert(row@.contains(s));
        return row;
    }
    let mut row: Vec<usize> = Vec::new();
    let mut u: usize = 0;
    while u < n
        invariant
            g == adjacency_view(adj),
            n == g.len(),
            valid_graph(g),
            optimal_labels(g, s as int, known@, dist@),
            forall|x: int| 0 <= x < n && #[trigger] known[x] ==> dist[x] <= n * metric_bound(),
            v < n,
            v != s,
            u <= n,
            strictly_increasing(row@),
            forall|i: int| 0 <= i < row.len() ==> #[trigger] row[i] < u,
            forall|x: int|
                0 <= x < u ==> (row@.contains(x as usize) <==> #[trigger] tight_pred(
                    g,
                    known@,
                    dist@,
                    v as int,
                    x,
                )),
        decreases n - u,
    {
        let ghost old_row = row@;
        if known[u] && known[v] && has_tight_adjacency(adj, dist, u, v) {
            row.push(u);
            assert(row@[row.len() - 1] == u);
        }
        assert forall|x: int| 0 <= x <= u implies (row@.contains(x as usize) <==> #[trigger] tight_pred(
            g,
            known@,
            dist@,
            v as int,
            x,
        )) by {
            if x < u {
                if row@.contains(x as usize) {
                    let i = choose|i: int| 0 <= i < row.len() && row[i] == x as usize;
                    assert(i < old_row.len());
                    assert(old_row[i] == x as usize);
                }
                if old_row.contains(x as usize) {
                    let i = choose|i: int| 0 <= i < old_row.len() && old_row[i] == x as usize;
                    assert(row[i] == x as usize);
                }
            } else if row@.contains(x as usize) {
                let i = choose|i: int| 0 <= i < row.len() && row[i] == x as usize;
                assert(i == old_row.len());
            }
        }
        u = u + 1;
    }
    assert forall|x: int| 0 <= x < n implies (row@.contains(x as usize) <==> #[trigger] is_shortest_pred(
        g,
        s as int,
        v as int,
        x,
    )) by {
        lemma_pred_is_tight(g, s as int, known@, dist@, v as int, x);
    }
    row
}

/// Shortest paths from `start`, with every equal-cost predecessor: for each
/// router, in increasing order, the routers that precede it on some shortest
/// walk from `start`. `None` where an adjacency names no router of the graph
/// or has a metric that is not positive.
pub fn dijkstra<G: Graph>(graph: &G, start: usize) -> (r: Option<Vec<Vec<usize>>>)
    requires
        start < graph.adjacency().len(),
    ensures
        r is Some <==> valid_graph(graph.adjacency()),
        r matches Some(p) ==> is_predecessor_table(graph.adjacency(), start as int, lists_view(&p)),
{
    let adj = adjacency_lists(graph);
    if !check_graph(&adj) {
        return None;
    }
    let ghost g = adjacency_view(&adj);
    let (known, dist) = shortest_labels(&adj, start);
    let n = adj.len();
    let mut preds: Vec<Vec<usize>> = Vec::new();
    let mut v: usize = 0;
    while v < n
        invariant
            g == adjacency_view(&adj),
            g == graph.adjacency(),
            n == g.len(),
            valid_graph(g),
            start < n,
            optimal_labels(g, start as int, known@, dist@),
            forall|x: int| 0 <= x < n && #[trigger] known[x] ==> dist[x] <= n * metric_bound(),
            v <= n,
            preds@.len() == v,
            forall|x: int| 0 <= x < v ==> strictly_increasing(#[trigger] lists_view(&preds)[x]),
            forall|x: int, i: int|
                0 <= x < v && 0 <= i < lists_view(&preds)[x].len() ==> (#[trigger] lists_view(&preds)[x][i]) < n,
            forall|x: int, u: int|
                #![trigger lists_view(&preds)[x].contains(u as usize)]
                #![trigger is_shortest_pred(g, start as int, x, u)]
                0 <= x < v && 0 <= u < n ==> (lists_view(&preds)[x].contains(u as usize)
                    <==> is_shortest_pred(g, start as int, x, u)),
        decreases n - v,
    {
        let row = predecessors_of(&adj, &known, &dist, start, v);
        let ghost old_view = lists_view(&preds);
        preds.push(row);
        assert(lists_view(&preds) =~= old_view.push(row@));
        v = v + 1;
    }
    Some(preds)
}

} // verus!

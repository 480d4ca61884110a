//! The router/link model: adjacency lists, walks and shortest distances.
use vstd::prelude::*;

verus! {

/// A router of the topology: its external id, its name, its transport
/// address and its adjacencies as (peer index, metric).
#[derive(Debug)]
pub struct Node {
    pub id: u32,
    pub name: String,
    pub address: String,
    pub neighbours: Vec<(usize, i32)>,
}

/// The adjacency lists of a graph given as vectors.
pub open spec fn adjacency_view(g: &Vec<Vec<(usize, i32)>>) -> Seq<Seq<(usize, i32)>> {
    g@.map_values(|row: Vec<(usize, i32)>| row@)
}

/// The adjacency lists of a list of routers.
pub open spec fn node_adjacency(nodes: Seq<Node>) -> Seq<Seq<(usize, i32)>> {
    nodes.map_values(|n: Node| n.neighbours@)
}

/// Every adjacency names a router of the graph and has a positive metric.
pub open spec fn valid_graph(g: Seq<Seq<(usize, i32)>>) -> bool {
    forall|u: int, k: int|
        0 <= u < g.len() && 0 <= k < g[u].len() ==> (#[trigger] g[u][k]).0 < g.len() && g[u][k].1
            > 0
}

/// There is an adjacency u -> v with metric w.
pub open spec fn has_edge(g: Seq<Seq<(usize, i32)>>, u: int, v: int, w: int) -> bool {
    &&& 0 <= u < g.len()
    &&& exists|k: int| 0 <= k < g[u].len() && (#[trigger] g[u][k]).0 as int == v && g[u][k].1 as int == w
}

/// The sum of a sequence of metrics.
pub open spec fn total(ws: Seq<int>) -> int
    decreases ws.len(),
{
    if ws.len() == 0 {
        0
    } else {
        total(ws.drop_last()) + ws.last()
    }
}

/// `nodes` is a walk from `s` to `v` whose i-th hop uses metric `ws[i]`.
pub open spec fn is_walk(g: Seq<Seq<(usize, i32)>>, s: int, v: int, nodes: Seq<int>, ws: Seq<int>) -> bool {
    &&& nodes.len() == ws.len() + 1
    &&& nodes[0] == s
    &&& nodes.last() == v
    &&& forall|i: int| 0 <= i < ws.len() ==> has_edge(g, #[trigger] nodes[i], nodes[i + 1], ws[i])
}

/// Some walk leads from `s` to `v`.
pub open spec fn reachable(g: Seq<Seq<(usize, i32)>>, s: int, v: int) -> bool {
    exists|nodes: Seq<int>, ws: Seq<int>| is_walk(g, s, v, nodes, ws)
}

/// `d` is the cost of a cheapest walk from `s` to `v`.
pub open spec fn is_shortest_dist(g: Seq<Seq<(usize, i32)>>, s: int, v: int, d: int) -> bool {
    &&& exists|nodes: Seq<int>, ws: Seq<int>| is_walk(g, s, v, nodes, ws) && total(ws) == d
    &&& forall|nodes: Seq<int>, ws: Seq<int>| is_walk(g, s, v, nodes, ws) ==> d <= total(ws)
}

/// `u` is an immediate predecessor of `v` on some shortest walk from `s`:
/// the source itself for `v == s`, else a router at shortest distance `du`
/// with an adjacency of metric `w` to `v`, where `du + w` is the shortest
/// distance of `v`.
pub open spec fn is_shortest_pred(g: Seq<Seq<(usize, i32)>>, s: int, v: int, u: int) -> bool {
    if v == s {
        u == s
    } else {
        exists|du: int, w: int|
            is_shortest_dist(g, s, u, du) && has_edge(g, u, v, w) && is_shortest_dist(
                g,
                s,
                v,
                du + w,
            )
    }
}

/// `x` is the first hop of some shortest walk from `s` to `d`.
pub open spec fn on_shortest_path(g: Seq<Seq<(usize, i32)>>, s: int, d: int, x: int) -> bool {
    exists|nodes: Seq<int>, ws: Seq<int>|
        is_walk(g, s, d, nodes, ws) && nodes.len() >= 2 && nodes[1] == x && is_shortest_dist(
            g,
            s,
            d,
            total(ws),
        )
}

/// The cost of a concatenation is the sum of the costs.
pub proof fn lemma_total_concat(a: Seq<int>, b: Seq<int>)
    ensures
        total(a + b) == total(a) + total(b),
    decreases b.len(),
{
    if b.len() > 0 {
        lemma_total_concat(a, b.drop_last());
        assert((a + b).drop_last() =~= a + b.drop_last());
    } else {
        assert(a + b =~= a);
    }
}

/// Metrics that are all positive add up to a positive cost, or to 0 for none.
pub proof fn lemma_total_positive(ws: Seq<int>)
    requires
        forall|i: int| 0 <= i < ws.len() ==> ws[i] > 0,
    ensures
        total(ws) >= 0,
        ws.len() > 0 ==> total(ws) > 0,
    decreases ws.len(),
{
    if ws.len() > 0 {
        lemma_total_positive(ws.drop_last());
    }
}

/// The metrics of a walk in a valid graph are positive.
pub proof fn lemma_walk_metrics_positive(
    g: Seq<Seq<(usize, i32)>>,
    s: int,
    v: int,
    nodes: Seq<int>,
    ws: Seq<int>,
)
    requires
        valid_graph(g),
        is_walk(g, s, v, nodes, ws),
    ensures
        forall|i: int| 0 <= i < ws.len() ==> ws[i] > 0,
        forall|i: int| 1 <= i < nodes.len() ==> 0 <= #[trigger] nodes[i] < g.len(),
        total(ws) >= 0,
{
    assert forall|i: int| 0 <= i < ws.len() implies ws[i] > 0 by {
        assert(has_edge(g, nodes[i], nodes[i + 1], ws[i]));
        let k = choose|k: int|
            0 <= k < g[nodes[i]].len() && (#[trigger] g[nodes[i]][k]).0 as int == nodes[i + 1] && g[nodes[i]][k].1
                as int == ws[i];
    }
    assert forall|i: int| 1 <= i < nodes.len() implies 0 <= #[trigger] nodes[i] < g.len() by {
        assert(has_edge(g, nodes[i - 1], nodes[i], ws[i - 1]));
        let k = choose|k: int|
            0 <= k < g[nodes[i - 1]].len() && (#[trigger] g[nodes[i - 1]][k]).0 as int == nodes[i]
                && g[nodes[i - 1]][k].1 as int == ws[i - 1];
    }
    lemma_total_positive(ws);
}

/// Two walks that meet end to start make one walk.
pub proof fn lemma_walk_concat(
    g: Seq<Seq<(usize, i32)>>,
    s: int,
    v: int,
    t: int,
    n1: Seq<int>,
    w1: Seq<int>,
    n2: Seq<int>,
    w2: Seq<int>,
)
    requires
        is_walk(g, s, v, n1, w1),
        is_walk(g, v, t, n2, w2),
    ensures
        is_walk(g, s, t, n1 + n2.drop_first(), w1 + w2),
        total(w1 + w2) == total(w1) + total(w2),
{
    let nodes = n1 + n2.drop_first();
    let ws = w1 + w2;
    assert forall|i: int| 0 <= i < ws.len() implies has_edge(g, #[trigger] nodes[i], nodes[i + 1], ws[i]) by {
        if i < w1.len() {
            assert(has_edge(g, n1[i], n1[i + 1], w1[i]));
            if i + 1 == n1.len() - 1 {
                assert(nodes[i + 1] == n1[i + 1]);
            }
        } else {
            let j = i - w1.len();
            assert(has_edge(g, n2[j], n2[j + 1], w2[j]));
            if j == 0 {
                assert(nodes[i] == n1[n1.len() - 1]);
            }
        }
    }
    if w2.len() == 0 {
        assert(nodes =~= n1);
    }
    lemma_total_concat(w1, w2);
}

/// The shortest distance of a router, when it has one, is unique.
pub proof fn lemma_shortest_dist_unique(g: Seq<Seq<(usize, i32)>>, s: int, v: int, a: int, b: int)
    requires
        is_shortest_dist(g, s, v, a),
        is_shortest_dist(g, s, v, b),
    ensures
        a == b,
{
    let (n1, w1) = choose|nodes: Seq<int>, ws: Seq<int>| is_walk(g, s, v, nodes, ws) && total(ws) == a;
    let (n2, w2) = choose|nodes: Seq<int>, ws: Seq<int>| is_walk(g, s, v, nodes, ws) && total(ws) == b;
}

/// A graph that hands out the adjacency list of each of its routers.
pub trait Graph {
    /// The adjacency lists of the graph.
    spec fn adjacency(&self) -> Seq<Seq<(usize, i32)>>;

    /// The number of routers.
    fn node_count(&self) -> (r: usize)
        ensures
            r == self.adjacency().len(),
    ;

    /// The adjacencies (peer, metric) of router `from`.
    fn get_successors(&self, from: usize) -> (r: Vec<(usize, i32)>)
        requires
            from < self.adjacency().len(),
        ensures
            r@ == self.adjacency()[from as int],
    ;
}

/// Copies a row of adjacencies.
fn copy_row(row: &Vec<(usize, i32)>) -> (r: Vec<(usize, i32)>)
    ensures
        r@ == row@,
{
    let mut r: Vec<(usize, i32)> = Vec::new();
    let mut i: usize = 0;
    while i < row.len()
        invariant
            i <= row.len(),
            r@ == row@.subrange(0, i as int),
        decreases row.len() - i,
    {
        r.push(row[i]);
        i = i + 1;
    }
    assert(r@ =~= row@);
    r
}

impl Graph for Vec<Vec<(usize, i32)>> {
    open spec fn adjacency(&self) -> Seq<Seq<(usize, i32)>> {
        adjacency_view(self)
    }

    fn node_count(&self) -> (r: usize) {
        self.len()
    }

    fn get_successors(&self, from: usize) -> (r: Vec<(usize, i32)>) {
        copy_row(&self[from])
    }
}

/// The adjacency lists of a list of routers, as vectors.
pub fn graph_node_to_usize(graph: &[Node]) -> (r: Vec<Vec<(usize, i32)>>)
    ensures
        adjacency_view(&r) == node_adjacency(graph@),
{
    let mut r: Vec<Vec<(usize, i32)>> = Vec::new();
    let mut i: usize = 0;
    while i < graph.len()
        invariant
            i <= graph.len(),
            r@.len() == i,
            adjacency_view(&r) =~= node_adjacency(graph@).subrange(0, i as int),
        decreases graph.len() - i,
    {
        let row = copy_row(&graph[i].neighbours);
        r.push(row);
        assert(adjacency_view(&r) =~= node_adjacency(graph@).subrange(0, i + 1));
        i = i + 1;
    }
    assert(adjacency_view(&r) =~= node_adjacency(graph@));
    r
}

/// The adjacency lists `g` with the link a–b of metric `m` added at both
/// ends.
pub open spec fn with_link(g: Seq<Seq<(usize, i32)>>, a: int, b: int, m: i32) -> Seq<Seq<(usize, i32)>> {
    let g1 = g.update(a, g[a].push((b as usize, m)));
    g1.update(b, g1[b].push((a as usize, m)))
}

/// The index of the first router named `name`, if any.
pub fn find_node(graph: &Vec<Node>, name: &String) -> (r: Option<usize>)
    ensures
        r matches Some(i) ==> i < graph.len() && graph[i as int].name@ == name@ && forall|j: int|
            0 <= j < i ==> (#[trigger] graph[j]).name@ != name@,
        r is None ==> forall|j: int| 0 <= j < graph.len() ==> (#[trigger] graph[j]).name@ != name@,
{
    let mut i: usize = 0;
    while i < graph.len()
        invariant
            i <= graph.len(),
            forall|j: int| 0 <= j < i ==> (#[trigger] graph[j]).name@ != name@,
        decreases graph.len() - i,
    {
        if graph[i].name == *name {
            return Some(i);
        }
        i = i + 1;
    }
    None
}

/// A copy of router `n` with the adjacency (peer, metric) appended.
fn node_with_adjacency(n: &Node, peer: usize, metric: i32) -> (r: Node)
    ensures
        r.id == n.id,
        r.name == n.name,
        r.address == n.address,
        r.neighbours@ == n.neighbours@.push((peer, metric)),
{
    let mut row = copy_row(&n.neighbours);
    row.push((peer, metric));
    Node { id: n.id, name: n.name.clone(), address: n.address.clone(), neighbours: row }
}

/// Adds the link a–b of metric `metric`: (b, metric) to the adjacencies of
/// `a` and (a, metric) to those of `b`. Ids, names and addresses are kept.
pub fn add_link(graph: &mut Vec<Node>, a: usize, b: usize, metric: i32)
    requires
        a < old(graph).len(),
        b < old(graph).len(),
    ensures
        final(graph).len() == old(graph).len(),
        node_adjacency(final(graph)@) == with_link(node_adjacency(old(graph)@), a as int, b as int, metric),
        forall|i: int|
            0 <= i < final(graph).len() ==> (#[trigger] final(graph)[i]).id == old(graph)[i].id
                && final(graph)[i].name == old(graph)[i].name && final(graph)[i].address == old(
                graph,
            )[i].address,
{
    let ghost g0 = node_adjacency(graph@);
    let na = node_with_adjacency(&graph[a], b, metric);
    graph.set(a, na);
    let ghost g1 = node_adjacency(graph@);
    assert(g1 =~= g0.update(a as int, g0[a as int].push((b, metric))));
    let nb = node_with_adjacency(&graph[b], a, metric);
    graph.set(b, nb);
    assert(node_adjacency(graph@) =~= g1.update(b as int, g1[b as int].push((a, metric))));
}

} // verus!

//! Per-router forwarding tables: BIER masks per neighbor, and BIER-TE
//! adjacency entries with the router's global bitstring.
use vstd::prelude::*;
use crate::allocator::BitPositions;
use crate::dijkstra::{dijkstra, is_predecessor_table, lists_view};
use crate::reachability::{
    get_all_out_interfaces_to_destination, is_back_chain, is_next_hop,
    lists_in_range, list_contains,
};
use crate::topology::{
    adjacency_view, has_edge, is_shortest_dist, is_shortest_pred, is_walk, lemma_shortest_dist_unique,
    lemma_total_concat, lemma_total_positive, lemma_walk_concat, lemma_walk_metrics_positive,
    on_shortest_path, total, valid_graph,
};

verus! {

/// Router `node` replicates toward `x` for destination `d`: `d` is another
/// router and `x` is among its next hops.
pub open spec fn forwards_to(next_hop: Seq<Seq<usize>>, node: int, d: int, x: int) -> bool {
    &&& 0 <= d < next_hop.len()
    &&& d != node
    &&& next_hop[d].contains(x as usize)
}

/// Some destination other than `node` has `x` among its next hops.
pub open spec fn is_used_neighbor(next_hop: Seq<Seq<usize>>, node: int, x: int) -> bool {
    exists|d: int| #[trigger] forwards_to(next_hop, node, d, x)
}

/// Some entry of `r` is for neighbor `x`.
pub open spec fn has_entry_for(r: Seq<BierEntry>, x: int) -> bool {
    exists|i: int| 0 <= i < r.len() && #[trigger] r[i].neighbor == x
}

/// One BIER forwarding entry: bit `d` of `mask` is set when packets for
/// router `d` are replicated toward `neighbor`.
#[derive(Debug)]
pub struct BierEntry {
    pub neighbor: usize,
    pub mask: Vec<bool>,
}

/// The BIER table of `node` from its next hops toward every destination:
/// one entry per neighbor that is a next hop toward some other router, in
/// increasing order of neighbor, whose mask has bit `d` set exactly when
/// that neighbor is a next hop toward `d` and `d` is not `node`.
pub fn bier_entries(next_hop: &Vec<Vec<usize>>, node: usize) -> (r: Vec<BierEntry>)
    requires
        node < next_hop.len(),
        lists_in_range(lists_view(next_hop)),
    ensures
        forall|i: int, j: int| 0 <= i < j < r.len() ==> r[i].neighbor < r[j].neighbor,
        forall|i: int| 0 <= i < r.len() ==> (#[trigger] r[i]).neighbor < next_hop.len() && r[i].mask.len() == next_hop.len(),
        forall|i: int, d: int|
            0 <= i < r.len() && 0 <= d < next_hop.len() ==> ((#[trigger] r[i].mask[d]) <==> forwards_to(
                lists_view(next_hop),
                node as int,
                d,
                r[i].neighbor as int,
            )),
        forall|x: int|
            #![trigger has_entry_for(r@, x)]
            #![trigger is_used_neighbor(lists_view(next_hop), node as int, x)]
            0 <= x < next_hop.len() ==> (has_entry_for(r@, x) <==> is_used_neighbor(
                lists_view(next_hop),
                node as int,
                x,
            )),
{
    let ghost p = lists_view(next_hop);
    let n = next_hop.len();
    let mut r: Vec<BierEntry> = Vec::new();
    let mut x: usize = 0;
    while x < n
        invariant
            p == lists_view(next_hop),
            n == p.len(),
            node < n,
            x <= n,
            forall|i: int, j: int| 0 <= i < j < r.len() ==> r[i].neighbor < r[j].neighbor,
            forall|i: int| 0 <= i < r.len() ==> (#[trigger] r[i]).neighbor < x && r[i].mask.len() == n,
            forall|i: int, d: int|
                0 <= i < r.len() && 0 <= d < n ==> ((#[trigger] r[i].mask[d]) <==> forwards_to(
                    p,
                    node as int,
                    d,
                    r[i].neighbor as int,
                )),
            forall|y: int|
                #![trigger has_entry_for(r@, y)]
                #![trigger is_used_neighbor(p, node as int, y)]
                0 <= y < x ==> (has_entry_for(r@, y) <==> is_used_neighbor(p, node as int, y)),
        decreases n - x,
    {
        let mut mask: Vec<bool> = Vec::new();
        let mut any = false;
        let mut d: usize = 0;
        while d < n
            invariant
                p == lists_view(next_hop),
                n == p.len(),
                node < n,
                x < n,
                d <= n,
                mask.len() == d,
                forall|e: int| 0 <= e < d ==> (#[trigger] mask[e] <==> forwards_to(p, node as int, e, x as int)),
                any <==> exists|e: int| 0 <= e < d && #[trigger] forwards_to(p, node as int, e, x as int),
            decreases n - d,
        {
            assert(p[d as int] == next_hop[d as int]@);
            let bit = d != node && list_contains(&next_hop[d], x);
            mask.push(bit);
            if bit {
                any = true;
            }
            assert(bit == forwards_to(p, node as int, d as int, x as int));
            assert(any <==> exists|e: int| 0 <= e < d + 1 && #[trigger] forwards_to(p, node as int, e, x as int)) by {
                if exists|e: int| 0 <= e < d + 1 && #[trigger] forwards_to(p, node as int, e, x as int) {
                    let e = choose|e: int| 0 <= e < d + 1 && #[trigger] forwards_to(p, node as int, e, x as int);
                    if e < d {
                        assert(exists|e2: int| 0 <= e2 < d && #[trigger] forwards_to(p, node as int, e2, x as int));
                    }
                }
            }
            d = d + 1;
        }
        assert(any <==> is_used_neighbor(p, node as int, x as int));
        if any {
            let ghost before = r@;
            r.push(BierEntry { neighbor: x, mask });
            assert forall|y: int|
                #![trigger has_entry_for(r@, y)]
                #![trigger is_used_neighbor(p, node as int, y)]
                0 <= y <= x implies (has_entry_for(r@, y) <==> is_used_neighbor(p, node as int, y)) by {
                if y < x {
                    if has_entry_for(r@, y) {
                        let i = choose|i: int| 0 <= i < r.len() && #[trigger] r[i].neighbor == y;
                        assert(before[i].neighbor == y);
                        assert(has_entry_for(before, y));
                    }
                    if has_entry_for(before, y) {
                        let i = choose|i: int| 0 <= i < before.len() && #[trigger] before[i].neighbor == y;
                        assert(r[i].neighbor == y);
                    }
                } else {
                    assert(r[r.len() - 1].neighbor == y);
                }
            }
        } else {
            assert forall|y: int|
                #![trigger has_entry_for(r@, y)]
                #![trigger is_used_neighbor(p, node as int, y)]
                0 <= y <= x implies (has_entry_for(r@, y) <==> is_used_neighbor(p, node as int, y)) by {
                if y == x && has_entry_for(r@, y) {
                    let i = choose|i: int| 0 <= i < r.len() && #[trigger] r[i].neighbor == y;
                }
            }
        }
        x = x + 1;
    }
    r
}

/// A bit was asked of the allocator for a router or a link it has none for.
#[derive(PartialEq, Eq, Debug, Clone, Copy)]
pub enum AllocationError {
    UnregisteredRouter(usize),
    UnregisteredLink(usize, usize),
}

/// One BIER-TE entry: adjacency bit `bit` leads to `neighbor`.
#[derive(PartialEq, Eq, Debug, Clone, Copy)]
pub struct BierTeEntry {
    pub bit: usize,
    pub neighbor: usize,
}

/// The BIER-TE table of a router: its global bitstring (its own bit and the
/// bits of its adjacencies) and one entry per adjacency.
#[derive(Debug)]
pub struct BierTeTable {
    pub bitstring: Vec<bool>,
    pub entries: Vec<BierTeEntry>,
}

/// Every adjacency of `node` has a link bit.
pub open spec fn adjacency_bits_known(g: Seq<Seq<(usize, i32)>>, bp: BitPositions, node: int) -> bool {
    forall|k: int| 0 <= k < g[node].len() ==> (#[trigger] bp.link_bit_of(node as usize, g[node][k].0)) is Some
}

/// `i` is the bit of an adjacency of `node`.
pub open spec fn is_adjacency_bit(g: Seq<Seq<(usize, i32)>>, bp: BitPositions, node: int, i: int) -> bool {
    exists|k: int| 0 <= k < g[node].len() && #[trigger] bp.link_bit_of(node as usize, g[node][k].0) == Some(i)
}

/// `t` is the BIER-TE table of `node`: one entry per adjacency, in
/// adjacency order, with the link's bit and the peer; and a bitstring over
/// every bit position with `node`'s own bit and its adjacency bits set.
pub open spec fn is_bier_te_table(g: Seq<Seq<(usize, i32)>>, bp: BitPositions, node: int, t: BierTeTable) -> bool {
    &&& t.bitstring.len() == bp.bit_count()
    &&& forall|i: int|
        0 <= i < t.bitstring.len() ==> (#[trigger] t.bitstring[i] <==> (i == node || is_adjacency_bit(
            g,
            bp,
            node,
            i,
        )))
    &&& t.entries.len() == g[node].len()
    &&& forall|k: int|
        0 <= k < t.entries.len() ==> (#[trigger] t.entries[k]).neighbor == g[node][k].0
            && bp.link_bit_of(node as usize, g[node][k].0) == Some(t.entries[k].bit as int)
}

/// The BIER-TE table of `node`: one entry per adjacency, in adjacency order,
/// with the link's bit and the peer; and a bitstring over every bit position
/// with `node`'s own bit and its adjacency bits set. An error when `node`
/// or one of its links has no bit.
pub fn bier_te_table(graph: &Vec<Vec<(usize, i32)>>, node: usize, bp: &BitPositions) -> (r: Result<
    BierTeTable,
    AllocationError,
>)
    requires
        node < graph.len(),
        bp.wf(),
    ensures
        node >= bp.nb_nodes ==> r == Err::<BierTeTable, AllocationError>(
            AllocationError::UnregisteredRouter(node),
        ),
        node < bp.nb_nodes ==> (r is Ok <==> adjacency_bits_known(adjacency_view(graph), *bp, node as int)),
        r matches Err(AllocationError::UnregisteredRouter(x)) ==> node >= bp.nb_nodes,
        r matches Err(AllocationError::UnregisteredLink(a, b)) ==> a == node && exists|k: int|
            0 <= k < graph[node as int].len() && #[trigger] graph[node as int][k].0 == b && bp.link_bit_of(a, b) is None,
        r matches Ok(t) ==> is_bier_te_table(adjacency_view(graph), *bp, node as int, t),
{
    let ghost g = adjacency_view(graph);
    if node >= bp.nb_nodes {
        return Err(AllocationError::UnregisteredRouter(node));
    }
    let nb_bp = bp.nb_bits();
    let mut bitstring: Vec<bool> = Vec::new();
    let mut i: usize = 0;
    while i < nb_bp
        invariant
            i <= nb_bp,
            bitstring.len() == i,
            forall|j: int| 0 <= j < i ==> !#[trigger] bitstring[j],
        decreases nb_bp - i,
    {
        bitstring.push(false);
        i = i + 1;
    }
    bitstring.set(node, true);
    let row = &graph[node];
    let mut entries: Vec<BierTeEntry> = Vec::new();
    let mut k: usize = 0;
    while k < row.len()
        invariant
            g == adjacency_view(graph),
            bp.wf(),
            nb_bp == bp.bit_count(),
            node < bp.nb_nodes,
            node < graph.len(),
            row@ == g[node as int],
            row@ == graph[node as int]@,
            k <= row.len(),
            bitstring.len() == nb_bp,
            entries.len() == k,
            forall|j: int|
                0 <= j < k ==> (#[trigger] bp.link_bit_of(node as usize, g[node as int][j].0)) is Some,
            forall|j: int|
                0 <= j < k ==> (#[trigger] entries[j]).neighbor == g[node as int][j].0 && bp.link_bit_of(
                    node,
                    g[node as int][j].0,
                ) == Some(entries[j].bit as int),
            forall|i: int|
                0 <= i < nb_bp ==> (#[trigger] bitstring[i] <==> (i == node || exists|j: int|
                    0 <= j < k && #[trigger] bp.link_bit_of(node as usize, g[node as int][j].0) == Some(i))),
        decreases row.len() - k,
    {
        let peer = row[k].0;
        match bp.link_bit(node, peer) {
            Some(bit) => {
                proof {
                    assert(bp.links@.contains(crate::allocator::canonical(node, peer)));
                    assert(0 <= bp.links@.index_of(crate::allocator::canonical(node, peer)) < bp.links.len()) by {
                        let key = crate::allocator::canonical(node, peer);
                        assert(bp.links@[bp.links@.index_of(key)] == key);
                    }
                }
                let ghost before = bitstring@;
                bitstring.set(bit, true);
                entries.push(BierTeEntry { bit, neighbor: peer });
                assert forall|i: int|
                    0 <= i < nb_bp implies (#[trigger] bitstring[i] <==> (i == node || exists|j: int|
                        0 <= j < k + 1 && #[trigger] bp.link_bit_of(node as usize, g[node as int][j].0) == Some(i))) by {
                    if i != bit {
                        if exists|j: int|
                            0 <= j < k + 1 && #[trigger] bp.link_bit_of(node as usize, g[node as int][j].0) == Some(i) {
                            let j = choose|j: int|
                                0 <= j < k + 1 && #[trigger] bp.link_bit_of(node as usize, g[node as int][j].0) == Some(i);
                            assert(j < k);
                        }
                    } else {
                        assert(bp.link_bit_of(node as usize, g[node as int][k as int].0) == Some(i));
                    }
                }
            },
            None => {
                assert(graph[node as int][k as int].0 == peer);
                assert(!adjacency_bits_known(g, *bp, node as int));
                return Err(AllocationError::UnregisteredLink(node, peer));
            },
        }
        k = k + 1;
    }
    assert forall|i: int|
        0 <= i < nb_bp implies (#[trigger] bitstring[i] <==> (i == node || is_adjacency_bit(g, *bp, node as int, i))) by {
        if is_adjacency_bit(g, *bp, node as int, i) {
            let j = choose|j: int| 0 <= j < g[node as int].len() && #[trigger] bp.link_bit_of(node as usize, g[node as int][j].0) == Some(i);
        }
    }
    Ok(BierTeTable { bitstring, entries })
}

/// `chain` starts at `d`, ends at `x`, steps each time to a shortest-path
/// predecessor from `s`, and never meets `s`.
pub open spec fn is_pred_chain(g: Seq<Seq<(usize, i32)>>, s: int, d: int, x: int, chain: Seq<int>) -> bool {
    &&& chain.len() >= 1
    &&& chain[0] == d
    &&& chain.last() == x
    &&& forall|i: int| 0 <= i < chain.len() ==> #[trigger] chain[i] != s && 0 <= chain[i] < g.len()
    &&& forall|i: int|
        0 <= i < chain.len() - 1 ==> is_shortest_pred(g, s, #[trigger] chain[i], chain[i + 1])
}

/// `x` is a next hop of `s` toward `d`: walking back from `d` over
/// shortest-path predecessors reaches `x` before `s`, and `s` precedes `x`.
pub open spec fn is_shortest_next_hop(g: Seq<Seq<(usize, i32)>>, s: int, d: int, x: int) -> bool {
    &&& exists|chain: Seq<int>| is_pred_chain(g, s, d, x, chain)
    &&& is_shortest_pred(g, s, x, s)
}

proof fn lemma_next_hop_of_table(g: Seq<Seq<(usize, i32)>>, s: int, p: Seq<Seq<usize>>, d: int, x: int)
    requires
        is_predecessor_table(g, s, p),
        g.len() <= usize::MAX,
        0 <= s < g.len(),
        0 <= d < g.len(),
        0 <= x < g.len(),
    ensures
        is_next_hop(p, s, d, x) <==> is_shortest_next_hop(g, s, d, x),
{
    if is_next_hop(p, s, d, x) {
        let chain = choose|chain: Seq<int>| is_back_chain(p, s, d, x, chain);
        assert forall|i: int| 0 <= i < chain.len() - 1 implies is_shortest_pred(g, s, #[trigger] chain[i], chain[i + 1]) by {
            assert(p[chain[i]].contains(chain[i + 1] as usize));
            assert(0 <= chain[i + 1] < g.len());
        }
        assert(is_pred_chain(g, s, d, x, chain));
        assert(p[x].contains(s as usize));
    }
    if is_shortest_next_hop(g, s, d, x) {
        let chain = choose|chain: Seq<int>| is_pred_chain(g, s, d, x, chain);
        assert forall|i: int| 0 <= i < chain.len() - 1 implies p[#[trigger] chain[i]].contains(chain[i + 1] as usize) by {
            assert(is_shortest_pred(g, s, chain[i], chain[i + 1]));
            assert(0 <= chain[i + 1] < g.len());
        }
        assert(is_back_chain(p, s, d, x, chain));
        assert(p[x].contains(s as usize));
    }
}

/// `t` is the BIER table of `node`: one entry per neighbor that is the first
/// hop of a shortest path toward some other router, in increasing order of
/// neighbor; bit `d` of its mask is set exactly when `d` is not `node` and
/// the neighbor is the first hop of some equal-cost shortest path from
/// `node` to `d`.
pub open spec fn is_bier_table(g: Seq<Seq<(usize, i32)>>, node: int, t: Seq<BierEntry>) -> bool {
    &&& forall|i: int, j: int| 0 <= i < j < t.len() ==> t[i].neighbor < t[j].neighbor
    &&& forall|i: int| 0 <= i < t.len() ==> (#[trigger] t[i]).neighbor < g.len() && t[i].mask.len() == g.len()
    &&& forall|i: int, d: int|
        0 <= i < t.len() && 0 <= d < g.len() ==> ((#[trigger] t[i].mask[d]) <==> d != node
            && on_shortest_path(g, node, d, t[i].neighbor as int))
    &&& forall|x: int|
        #![trigger has_entry_for(t, x)]
        0 <= x < g.len() ==> (has_entry_for(t, x) <==> exists|d: int|
            0 <= d < g.len() && d != node && #[trigger] on_shortest_path(g, node, d, x))
}

/// The BIER table of `node` (see `is_bier_table`): for every destination,
/// the next hops found walking back over the shortest-path predecessors
/// from `node`, grouped into one mask per neighbor. `None` when the graph
/// is not valid.
pub fn bier_table(graph: &Vec<Vec<(usize, i32)>>, node: usize) -> (r: Option<Vec<BierEntry>>)
    requires
        node < graph.len(),
    ensures
        r is Some <==> valid_graph(adjacency_view(graph)),
        r matches Some(t) ==> is_bier_table(adjacency_view(graph), node as int, t@),
{
    let ghost g = adjacency_view(graph);
    let preds = match dijkstra(graph, node) {
        Some(p) => p,
        None => return None,
    };
    let ghost p = lists_view(&preds);
    let n = graph.len();
    let mut next_hop: Vec<Vec<usize>> = Vec::new();
    let mut d: usize = 0;
    while d < n
        invariant
            g == adjacency_view(graph),
            n == g.len(),
            node < n,
            p == lists_view(&preds),
            is_predecessor_table(g, node as int, p),
            next_hop.len() == d,
            d <= n,
            forall|e: int, i: int| 0 <= e < d && 0 <= i < lists_view(&next_hop)[e].len() ==> (#[trigger] lists_view(&next_hop)[e][i]) < n,
            forall|e: int, x: int|
                0 <= e < d && e != node && 0 <= x < n ==> (lists_view(&next_hop)[e].contains(x as usize)
                    <==> #[trigger] is_next_hop(p, node as int, e, x)),
        decreases n - d,
    {
        assert(lists_in_range(p));
        let hops = get_all_out_interfaces_to_destination(&preds, node, d);
        let ghost before = lists_view(&next_hop);
        next_hop.push(hops);
        assert(lists_view(&next_hop) =~= before.push(hops@));
        d = d + 1;
    }
    let entries = bier_entries(&next_hop, node);
    proof {
        assert forall|e: int, x: int|
            0 <= e < n && 0 <= x < n implies (#[trigger] forwards_to(lists_view(&next_hop), node as int, e, x) <==> e
                != node && on_shortest_path(g, node as int, e, x)) by {
            lemma_next_hop_of_table(g, node as int, p, e, x);
            if e != node {
                lemma_next_hop_iff_on_shortest_path(g, node as int, e, x);
            }
        }
    }
    assert forall|x: int|
        #![trigger has_entry_for(entries@, x)]
        0 <= x < n implies (has_entry_for(entries@, x) <==> exists|e: int|
            0 <= e < n && e != node && #[trigger] on_shortest_path(g, node as int, e, x)) by {
        assert(has_entry_for(entries@, x) <==> is_used_neighbor(lists_view(&next_hop), node as int, x));
        if exists|e: int| 0 <= e < n && e != node && #[trigger] on_shortest_path(g, node as int, e, x) {
            let e = choose|e: int| 0 <= e < n && e != node && #[trigger] on_shortest_path(g, node as int, e, x);
            assert(forwards_to(lists_view(&next_hop), node as int, e, x));
        }
        if is_used_neighbor(lists_view(&next_hop), node as int, x) {
            let e = choose|e: int| #[trigger] forwards_to(lists_view(&next_hop), node as int, e, x);
        }
    }
    Some(entries)
}

/// Two strictly increasing sequences with the same elements are equal.
proof fn lemma_sorted_unique(a: Seq<int>, b: Seq<int>)
    requires
        forall|i: int, j: int| 0 <= i < j < a.len() ==> a[i] < a[j],
        forall|i: int, j: int| 0 <= i < j < b.len() ==> b[i] < b[j],
        forall|x: int| a.contains(x) <==> b.contains(x),
    ensures
        a == b,
    decreases a.len(),
{
    if a.len() == 0 {
        if b.len() > 0 {
            assert(b.contains(b[0]));
        }
        assert(a =~= b);
    } else if b.len() == 0 {
        assert(a.contains(a[0]));
    } else {
        assert(a.contains(a[0]));
        assert(b.contains(b[0]));
        let j = choose|j: int| 0 <= j < b.len() && b[j] == a[0];
        let i = choose|i: int| 0 <= i < a.len() && a[i] == b[0];
        if j > 0 {
            assert(b[0] < b[j]);
            if i > 0 {
                assert(a[0] < a[i]);
            }
        }
        assert(a[0] == b[0]);
        let a1 = a.drop_first();
        let b1 = b.drop_first();
        assert forall|x: int| a1.contains(x) <==> b1.contains(x) by {
            if a1.contains(x) {
                let k = choose|k: int| 0 <= k < a1.len() && a1[k] == x;
                assert(a[k + 1] == x);
                assert(a.contains(x));
                let m = choose|m: int| 0 <= m < b.len() && b[m] == x;
                assert(a[0] < a[k + 1]);
                assert(m > 0);
                assert(b1[m - 1] == x);
            }
            if b1.contains(x) {
                let k = choose|k: int| 0 <= k < b1.len() && b1[k] == x;
                assert(b[k + 1] == x);
                assert(b.contains(x));
                let m = choose|m: int| 0 <= m < a.len() && a[m] == x;
                assert(b[0] < b[k + 1]);
                assert(m > 0);
                assert(a1[m - 1] == x);
            }
        }
        lemma_sorted_unique(a1, b1);
        assert(a =~= seq![a[0]] + a1);
        assert(b =~= seq![b[0]] + b1);
    }
}

/// Building the BIER table of a router twice from the same graph gives the
/// same table: the same neighbors in the same order, with the same masks.
pub proof fn lemma_bier_table_deterministic(
    g: Seq<Seq<(usize, i32)>>,
    node: int,
    t1: Seq<BierEntry>,
    t2: Seq<BierEntry>,
)
    requires
        is_bier_table(g, node, t1),
        is_bier_table(g, node, t2),
    ensures
        t1.len() == t2.len(),
        forall|i: int|
            0 <= i < t1.len() ==> (#[trigger] t1[i]).neighbor == t2[i].neighbor && t1[i].mask@ == t2[i].mask@,
{
    let a = t1.map_values(|e: BierEntry| e.neighbor as int);
    let b = t2.map_values(|e: BierEntry| e.neighbor as int);
    assert forall|x: int| a.contains(x) <==> b.contains(x) by {
        if a.contains(x) {
            let i = choose|i: int| 0 <= i < a.len() && a[i] == x;
            assert(t1[i].neighbor < g.len());
            assert(has_entry_for(t1, x));
            assert(has_entry_for(t2, x));
            let j = choose|j: int| 0 <= j < t2.len() && #[trigger] t2[j].neighbor == x;
            assert(b[j] == x);
        }
        if b.contains(x) {
            let i = choose|i: int| 0 <= i < b.len() && b[i] == x;
            assert(t2[i].neighbor < g.len());
            assert(has_entry_for(t2, x));
            assert(has_entry_for(t1, x));
            let j = choose|j: int| 0 <= j < t1.len() && #[trigger] t1[j].neighbor == x;
            assert(a[j] == x);
        }
    }
    lemma_sorted_unique(a, b);
    assert(a.len() == t1.len() && b.len() == t2.len());
    assert forall|i: int| 0 <= i < t1.len() implies (#[trigger] t1[i]).neighbor == t2[i].neighbor
        && t1[i].mask@ == t2[i].mask@ by {
        assert(a[i] == b[i]);
        assert forall|d: int| 0 <= d < g.len() implies t1[i].mask@[d] == t2[i].mask@[d] by {
            assert(t1[i].mask[d] <==> t2[i].mask[d]);
        }
        assert(t1[i].mask@ =~= t2[i].mask@);
    }
}

/// Building the BIER-TE table of a router twice from the same graph and the
/// same frozen bit positions gives the same bitstring and the same entries.
pub proof fn lemma_bier_te_table_deterministic(
    g: Seq<Seq<(usize, i32)>>,
    bp: BitPositions,
    node: int,
    t1: BierTeTable,
    t2: BierTeTable,
)
    requires
        0 <= node < g.len(),
        is_bier_te_table(g, bp, node, t1),
        is_bier_te_table(g, bp, node, t2),
    ensures
        t1.bitstring@ == t2.bitstring@,
        t1.entries@ == t2.entries@,
{
    assert forall|i: int| 0 <= i < t1.bitstring.len() implies t1.bitstring@[i] == t2.bitstring@[i] by {
        assert(t1.bitstring[i] <==> t2.bitstring[i]);
    }
    assert(t1.bitstring@ =~= t2.bitstring@);
    assert forall|k: int| 0 <= k < t1.entries.len() implies t1.entries@[k] == t2.entries@[k] by {
        assert(t1.entries[k].neighbor == t2.entries[k].neighbor);
    }
    assert(t1.entries@ =~= t2.entries@);
}

proof fn lemma_source_dist_zero(g: Seq<Seq<(usize, i32)>>, s: int)
    requires
        valid_graph(g),
    ensures
        is_shortest_dist(g, s, s, 0),
{
    assert(is_walk(g, s, s, seq![s], Seq::<int>::empty()));
    assert(total(Seq::<int>::empty()) == 0);
    assert forall|nodes: Seq<int>, ws: Seq<int>| is_walk(g, s, s, nodes, ws) implies 0 <= total(ws) by {
        lemma_walk_metrics_positive(g, s, s, nodes, ws);
    }
}

/// A chain of shortest-path predecessors from `chain[0]` back to a router
/// whose predecessor is `s` is a shortest walk from `s`, read backwards.
proof fn lemma_chain_gives_walk(g: Seq<Seq<(usize, i32)>>, s: int, chain: Seq<int>) -> (r: (Seq<int>, Seq<int>))
    requires
        valid_graph(g),
        0 <= s < g.len(),
        chain.len() >= 1,
        forall|i: int| 0 <= i < chain.len() ==> #[trigger] chain[i] != s && 0 <= chain[i] < g.len(),
        forall|i: int| 0 <= i < chain.len() - 1 ==> is_shortest_pred(g, s, #[trigger] chain[i], chain[i + 1]),
        is_shortest_pred(g, s, chain.last(), s),
    ensures
        is_walk(g, s, chain[0], r.0, r.1),
        r.0.len() >= 2,
        r.0[1] == chain.last(),
        is_shortest_dist(g, s, chain[0], total(r.1)),
    decreases chain.len(),
{
    if chain.len() == 1 {
        let x = chain[0];
        assert(x != s);
        let (du, w) = choose|du: int, w: int|
            is_shortest_dist(g, s, s, du) && has_edge(g, s, x, w) && is_shortest_dist(g, s, x, du + w);
        lemma_source_dist_zero(g, s);
        lemma_shortest_dist_unique(g, s, s, du, 0);
        let nodes = seq![s, x];
        let ws = seq![w];
        assert(ws.drop_last() =~= Seq::<int>::empty());
        assert(total(Seq::<int>::empty()) == 0);
        assert(total(ws) == total(ws.drop_last()) + ws.last());
        assert(total(ws) == w);
        assert(is_walk(g, s, x, nodes, ws));
        (nodes, ws)
    } else {
        let rest = chain.drop_first();
        assert forall|i: int| 0 <= i < rest.len() - 1 implies is_shortest_pred(g, s, #[trigger] rest[i], rest[i + 1]) by {
            assert(is_shortest_pred(g, s, chain[i + 1], chain[i + 2]));
        }
        assert forall|i: int| 0 <= i < rest.len() implies #[trigger] rest[i] != s && 0 <= rest[i] < g.len() by {
            assert(chain[i + 1] != s);
        }
        let (n1, w1) = lemma_chain_gives_walk(g, s, rest);
        let c0 = chain[0];
        let c1 = chain[1];
        assert(is_shortest_pred(g, s, chain[0], chain[1]));
        assert(c0 != s);
        let (du, w) = choose|du: int, w: int|
            is_shortest_dist(g, s, c1, du) && has_edge(g, c1, c0, w) && is_shortest_dist(g, s, c0, du + w);
        lemma_shortest_dist_unique(g, s, c1, du, total(w1));
        let nodes = n1.push(c0);
        let ws = w1.push(w);
        assert(ws.drop_last() =~= w1);
        assert forall|i: int| 0 <= i < ws.len() implies has_edge(g, #[trigger] nodes[i], nodes[i + 1], ws[i]) by {
            if i < w1.len() {
                assert(has_edge(g, n1[i], n1[i + 1], w1[i]));
            }
        }
        (nodes, ws)
    }
}

proof fn lemma_walk_split(g: Seq<Seq<(usize, i32)>>, s: int, d: int, nodes: Seq<int>, ws: Seq<int>, i: int)
    requires
        is_walk(g, s, d, nodes, ws),
        0 <= i <= ws.len(),
    ensures
        is_walk(g, s, nodes[i], nodes.take(i + 1), ws.take(i)),
        is_walk(g, nodes[i], d, nodes.skip(i), ws.skip(i)),
        total(ws) == total(ws.take(i)) + total(ws.skip(i)),
{
    let pn = nodes.take(i + 1);
    let pw = ws.take(i);
    assert forall|j: int| 0 <= j < pw.len() implies has_edge(g, #[trigger] pn[j], pn[j + 1], pw[j]) by {
        assert(has_edge(g, nodes[j], nodes[j + 1], ws[j]));
    }
    let sn = nodes.skip(i);
    let sw = ws.skip(i);
    assert forall|j: int| 0 <= j < sw.len() implies has_edge(g, #[trigger] sn[j], sn[j + 1], sw[j]) by {
        assert(has_edge(g, nodes[i + j], nodes[i + j + 1], ws[i + j]));
    }
    assert(ws =~= pw + sw);
    lemma_total_concat(pw, sw);
}

/// The first hop of a shortest walk is found walking back from its end
/// over shortest-path predecessors.
proof fn lemma_walk_gives_chain(g: Seq<Seq<(usize, i32)>>, s: int, d: int, nodes: Seq<int>, ws: Seq<int>)
    requires
        valid_graph(g),
        0 <= s < g.len(),
        is_walk(g, s, d, nodes, ws),
        nodes.len() >= 2,
        is_shortest_dist(g, s, d, total(ws)),
    ensures
        is_shortest_next_hop(g, s, d, nodes[1]),
{
    let k = ws.len() as int;
    lemma_walk_metrics_positive(g, s, d, nodes, ws);
    lemma_source_dist_zero(g, s);
    assert forall|i: int| 0 <= i <= k implies is_shortest_dist(g, s, #[trigger] nodes[i], total(ws.take(i))) by {
        lemma_walk_split(g, s, d, nodes, ws, i);
        assert forall|n2: Seq<int>, w2: Seq<int>| is_walk(g, s, nodes[i], n2, w2) implies total(ws.take(i)) <= total(w2) by {
            lemma_walk_concat(g, s, nodes[i], d, n2, w2, nodes.skip(i), ws.skip(i));
        }
    }
    assert forall|m: int| 1 <= m <= k implies #[trigger] nodes[m] != s by {
        assert(forall|j: int| 0 <= j < ws.take(m).len() ==> ws.take(m)[j] > 0);
        lemma_total_positive(ws.take(m));
        if nodes[m] == s {
            lemma_shortest_dist_unique(g, s, s, 0, total(ws.take(m)));
        }
    }
    assert forall|m: int| 1 <= m <= k implies is_shortest_pred(g, s, #[trigger] nodes[m], nodes[m - 1]) by {
        assert(ws.take(m).drop_last() =~= ws.take(m - 1));
        assert(total(ws.take(m)) == total(ws.take(m - 1)) + ws[m - 1]);
        assert(has_edge(g, nodes[m - 1], nodes[m], ws[m - 1]));
        assert(is_shortest_dist(g, s, nodes[m - 1], total(ws.take(m - 1))));
        assert(is_shortest_dist(g, s, nodes[m], total(ws.take(m))));
    }
    assert(ws.take(0) =~= Seq::<int>::empty());
    assert(nodes[0] == s);
    assert(is_shortest_pred(g, s, nodes[1], s));
    let chain = Seq::new(k as nat, |j: int| nodes[k - j]);
    assert forall|j: int| 0 <= j < chain.len() - 1 implies is_shortest_pred(g, s, #[trigger] chain[j], chain[j + 1]) by {
        assert(is_shortest_pred(g, s, nodes[k - j], nodes[k - j - 1]));
    }
    assert forall|j: int| 0 <= j < chain.len() implies #[trigger] chain[j] != s && 0 <= chain[j] < g.len() by {
        assert(nodes[k - j] != s);
    }
    assert(is_pred_chain(g, s, d, nodes[1], chain));
}

/// For a router `s` and another router `d` of a valid graph, `x` is a next
/// hop of `s` toward `d` (found walking back from `d` over shortest-path
/// predecessors) exactly when `x` is the first hop of some equal-cost
/// shortest path from `s` to `d`.
pub proof fn lemma_next_hop_iff_on_shortest_path(g: Seq<Seq<(usize, i32)>>, s: int, d: int, x: int)
    requires
        valid_graph(g),
        0 <= s < g.len(),
        0 <= d < g.len(),
        d != s,
    ensures
        is_shortest_next_hop(g, s, d, x) <==> on_shortest_path(g, s, d, x),
{
    if is_shortest_next_hop(g, s, d, x) {
        let chain = choose|chain: Seq<int>| is_pred_chain(g, s, d, x, chain);
        let (nodes, ws) = lemma_chain_gives_walk(g, s, chain);
    }
    if on_shortest_path(g, s, d, x) {
        let (nodes, ws) = choose|nodes: Seq<int>, ws: Seq<int>|
            is_walk(g, s, d, nodes, ws) && nodes.len() >= 2 && nodes[1] == x && is_shortest_dist(g, s, d, total(ws));
        lemma_walk_gives_chain(g, s, d, nodes, ws);
    }
}

} // verus!

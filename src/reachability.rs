//! Next hops toward a destination, from one source's predecessor lists.
use vstd::prelude::*;
use vstd::set_lib::{lemma_int_range, lemma_len_subset, set_int_range};
use crate::dijkstra::{lists_view, strictly_increasing};

verus! {

/// Every entry of every list names a router of the table.
pub open spec fn lists_in_range(p: Seq<Seq<usize>>) -> bool {
    forall|v: int, i: int| 0 <= v < p.len() && 0 <= i < p[v].len() ==> (#[trigger] p[v][i]) < p.len()
}

/// `chain` starts at `d`, ends at `x`, steps each time to a predecessor and
/// never meets `s`.
pub open spec fn is_back_chain(p: Seq<Seq<usize>>, s: int, d: int, x: int, chain: Seq<int>) -> bool {
    &&& chain.len() >= 1
    &&& chain[0] == d
    &&& chain.last() == x
    &&& forall|i: int| 0 <= i < chain.len() ==> #[trigger] chain[i] != s && 0 <= chain[i] < p.len()
    &&& forall|i: int|
        0 <= i < chain.len() - 1 ==> p[#[trigger] chain[i]].contains(chain[i + 1] as usize)
}

/// `x` is met walking back from `d` over predecessors without meeting `s`.
pub open spec fn back_reachable(p: Seq<Seq<usize>>, s: int, d: int, x: int) -> bool {
    exists|chain: Seq<int>| is_back_chain(p, s, d, x, chain)
}

/// `x` is a next hop of `s` toward `d`: met walking back from `d`, with `s`
/// among its predecessors.
pub open spec fn is_next_hop(p: Seq<Seq<usize>>, s: int, d: int, x: int) -> bool {
    &&& back_reachable(p, s, d, x)
    &&& 0 <= x < p.len()
    &&& p[x].contains(s as usize)
}

/// Whether `x` is in `v`.
pub fn list_contains(v: &Vec<usize>, x: usize) -> (r: bool)
    ensures
        r == v@.contains(x),
{
    let mut i: usize = 0;
    while i < v.len()
        invariant
            i <= v.len(),
            forall|j: int| 0 <= j < i ==> v[j] != x,
        decreases v.len() - i,
    {
        if v[i] == x {
            assert(v@[i as int] == x);
            return true;
        }
        i = i + 1;
    }
    false
}

proof fn lemma_extend_chain(p: Seq<Seq<usize>>, s: int, d: int, x: int, y: int)
    requires
        back_reachable(p, s, d, x),
        0 <= y < p.len(),
        y != s,
        p[x].contains(y as usize),
    ensures
        back_reachable(p, s, d, y),
{
    let chain = choose|chain: Seq<int>| is_back_chain(p, s, d, x, chain);
    let c2 = chain.push(y);
    assert forall|i: int| 0 <= i < c2.len() - 1 implies p[#[trigger] c2[i]].contains(c2[i + 1] as usize) by {
        if i < chain.len() - 1 {
            assert(p[chain[i]].contains(chain[i + 1] as usize));
        }
    }
    assert forall|i: int| 0 <= i < c2.len() implies #[trigger] c2[i] != s && 0 <= c2[i] < p.len() by {
        if i < chain.len() {
            assert(chain[i] != s);
        }
    }
    assert(is_back_chain(p, s, d, y, c2));
}

/// Every router of a back chain is in a set that holds `d` and is closed
/// under stepping to predecessors other than `s`.
proof fn lemma_chain_in_closed(
    p: Seq<Seq<usize>>,
    s: int,
    d: int,
    x: int,
    chain: Seq<int>,
    visited: Seq<bool>,
)
    requires
        p.len() <= usize::MAX,
        is_back_chain(p, s, d, x, chain),
        visited.len() == p.len(),
        visited[d],
        forall|y: int, j: int|
            0 <= y < p.len() && visited[y] && 0 <= j < p[y].len() && p[y][j] != s ==> visited[(
            #[trigger] p[y][j]) as int],
    ensures
        visited[x],
    decreases chain.len(),
{
    if chain.len() > 1 {
        let c = chain.drop_last();
        assert forall|i: int| 0 <= i < c.len() - 1 implies p[#[trigger] c[i]].contains(c[i + 1] as usize) by {
            assert(p[chain[i]].contains(chain[i + 1] as usize));
        }
        assert forall|i: int| 0 <= i < c.len() implies #[trigger] c[i] != s && 0 <= c[i] < p.len() by {
            assert(chain[i] != s);
        }
        let y = c.last();
        lemma_chain_in_closed(p, s, d, y, c, visited);
        assert(chain[c.len() - 1] == y);
        assert(p[chain[c.len() - 1]].contains(chain[c.len() as int] as usize));
        assert(p[y].contains(x as usize));
        let j = choose|j: int| 0 <= j < p[y].len() && p[y][j] == x as usize;
        assert(chain[chain.len() - 1] != s);
        assert(0 <= x < p.len());
        assert(p[y][j] as int == x);
        assert(visited[(p[y][j]) as int]);
    }
}

/// The next hops of `source` toward `destination`, in increasing order: the
/// routers met walking back from `destination` over `predecessors` (without
/// passing `source`) that have `source` as a predecessor. `source` alone
/// when it is the destination; none when the destination cannot be reached.
pub fn get_all_out_interfaces_to_destination(
    predecessors: &Vec<Vec<usize>>,
    source: usize,
    destination: usize,
) -> (r: Vec<usize>)
    requires
        destination < predecessors.len(),
        lists_in_range(lists_view(predecessors)),
    ensures
        source == destination ==> r@ == seq![source],
        source != destination ==> {
            &&& strictly_increasing(r@)
            &&& forall|i: int| 0 <= i < r.len() ==> #[trigger] r[i] < predecessors.len()
            &&& forall|x: int|
                0 <= x < predecessors.len() ==> (r@.contains(x as usize) <==> #[trigger] is_next_hop(
                    lists_view(predecessors),
                    source as int,
                    destination as int,
                    x,
                ))
        },
{
    if source == destination {
        return vec![source];
    }
    let ghost p = lists_view(predecessors);
    let ghost s = source as int;
    let ghost d = destination as int;
    let n = predecessors.len();
    let mut visited: Vec<bool> = Vec::new();
    let mut i: usize = 0;
    while i < n
        invariant
            i <= n,
            visited.len() == i,
            forall|v: int| 0 <= v < i ==> !#[trigger] visited[v],
        decreases n - i,
    {
        visited.push(false);
        i = i + 1;
    }
    let mut stack: Vec<usize> = vec![destination];
    let ghost mut seen: Set<int> = Set::empty();
    proof {
        lemma_int_range(0, n as int);
        assert(is_back_chain(p, s, d, d, seq![d]));
        assert(stack@[0] == destination);
    }
    while stack.len() > 0
        invariant
            p == lists_view(predecessors),
            n == p.len(),
            lists_in_range(p),
            s == source,
            d == destination,
            d < n,
            s != d,
            visited.len() == n,
            forall|v: int| #[trigger] seen.contains(v) <==> 0 <= v < n && visited[v],
            seen.finite(),
            seen.subset_of(set_int_range(0, n as int)),
            set_int_range(0, n as int).finite(),
            set_int_range(0, n as int).len() == n,
            forall|i: int|
                0 <= i < stack.len() ==> #[trigger] stack[i] < n && stack[i] != s && back_reachable(
                    p,
                    s,
                    d,
                    stack[i] as int,
                ),
            forall|v: int| 0 <= v < n && #[trigger] visited[v] ==> v != s && back_reachable(p, s, d, v),
            forall|y: int, j: int|
                0 <= y < n && visited[y] && 0 <= j < p[y].len() && p[y][j] != s ==> visited[(
                #[trigger] p[y][j]) as int] || stack@.contains(p[y][j]),
            visited[d] || stack@.contains(d as usize),
        decreases n - seen.len(), stack.len(),
    {
        proof {
            lemma_len_subset(seen, set_int_range(0, n as int));
        }
        let ghost old_stack = stack@;
        let elem = match stack.pop() {
            Some(e) => e,
            None => return Vec::new(),
        };
        assert(old_stack == stack@.push(elem));
        assert(old_stack[old_stack.len() - 1] == elem);
        assert forall|y: usize| old_stack.contains(y) implies y == elem || stack@.contains(y) by {
            let i = choose|i: int| 0 <= i < old_stack.len() && old_stack[i] == y;
            if i < stack.len() {
                assert(stack@[i] == y);
            }
        }
        assert forall|i: int| 0 <= i < stack.len() implies #[trigger] stack[i] < n && stack[i] != s && back_reachable(
            p,
            s,
            d,
            stack[i] as int,
        ) by {
            assert(old_stack[i] == stack[i]);
        }
        if !visited[elem] {
            visited.set(elem, true);
            proof {
                seen = seen.insert(elem as int);
                lemma_len_subset(seen, set_int_range(0, n as int));
            }
            let row = &predecessors[elem];
            let mut k: usize = 0;
            while k < row.len()
                invariant
                    p == lists_view(predecessors),
                    n == p.len(),
                    lists_in_range(p),
                    s == source,
                    d == destination,
                    d < n,
                    s != d,
                    elem < n,
                    row@ == p[elem as int],
                    k <= row.len(),
                    visited.len() == n,
                    visited[elem as int],
                    back_reachable(p, s, d, elem as int),
                    forall|v: int| #[trigger] seen.contains(v) <==> 0 <= v < n && visited[v],
                    seen.finite(),
                    seen.subset_of(set_int_range(0, n as int)),
                    set_int_range(0, n as int).finite(),
                    set_int_range(0, n as int).len() == n,
                    forall|i: int|
                        0 <= i < stack.len() ==> #[trigger] stack[i] < n && stack[i] != s && back_reachable(
                            p,
                            s,
                            d,
                            stack[i] as int,
                        ),
                    forall|v: int| 0 <= v < n && #[trigger] visited[v] ==> v != s && back_reachable(p, s, d, v),
                    forall|y: int, j: int|
                        0 <= y < n && visited[y] && 0 <= j < p[y].len() && p[y][j] != s && (y != elem || j < k)
                            ==> visited[(#[trigger] p[y][j]) as int] || stack@.contains(p[y][j]),
                    visited[d] || stack@.contains(d as usize),
                decreases row.len() - k,
            {
                let pred = row[k];
                assert(p[elem as int][k as int] == pred);
                if pred != source && !visited[pred] {
                    proof {
                        assert(p[elem as int].contains(pred));
                        lemma_extend_chain(p, s, d, elem as int, pred as int);
                    }
                    let ghost before = stack@;
                    stack.push(pred);
                    assert forall|y: usize| before.contains(y) implies stack@.contains(y) by {
                        let i = choose|i: int| 0 <= i < before.len() && before[i] == y;
                        assert(stack@[i] == y);
                    }
                    assert(stack@[stack.len() - 1] == pred);
                }
                k = k + 1;
            }
        }
    }
    let mut out: Vec<usize> = Vec::new();
    let mut x: usize = 0;
    while x < n
        invariant
            p == lists_view(predecessors),
            n == p.len(),
            s == source,
            d == destination,
            d < n,
            visited.len() == n,
            visited[d],
            forall|v: int| 0 <= v < n && #[trigger] visited[v] ==> v != s && back_reachable(p, s, d, v),
            forall|y: int, j: int|
                0 <= y < n && visited[y] && 0 <= j < p[y].len() && p[y][j] != s ==> visited[(
                #[trigger] p[y][j]) as int],
            x <= n,
            strictly_increasing(out@),
            forall|i: int| 0 <= i < out.len() ==> #[trigger] out[i] < x,
            forall|v: int|
                #![trigger out@.contains(v as usize)]
                #![trigger visited[v]]
                0 <= v < x ==> (out@.contains(v as usize) <==> visited[v] && p[v].contains(source)),
        decreases n - x,
    {
        let ghost before = out@;
        assert(p[x as int] == predecessors[x as int]@);
        if visited[x] && list_contains(&predecessors[x], source) {
            out.push(x);
            assert(out@[out.len() - 1] == x);
        }
        assert forall|v: int|
            #![trigger out@.contains(v as usize)]
            #![trigger visited[v]]
            0 <= v <= x implies (out@.contains(v as usize) <==> visited[v] && p[v].contains(source)) by {
            if v < x {
                assert(before.contains(v as usize) <==> visited[v] && p[v].contains(source));
                if out@.contains(v as usize) {
                    let i = choose|i: int| 0 <= i < out.len() && out[i] == v as usize;
                    assert(i < before.len());
                    assert(before[i] == v as usize);
                }
                if before.contains(v as usize) {
                    let i = choose|i: int| 0 <= i < before.len() && before[i] == v as usize;
                    assert(out[i] == v as usize);
                }
            } else if out@.contains(v as usize) {
                let i = choose|i: int| 0 <= i < out.len() && out[i] == v as usize;
                assert(i == before.len());
            }
        }
        x = x + 1;
    }
    assert forall|v: int| 0 <= v < n implies (out@.contains(v as usize) <==> #[trigger] is_next_hop(
        p,
        s,
        d,
        v,
    )) by {
        if back_reachable(p, s, d, v) {
            let chain = choose|chain: Seq<int>| is_back_chain(p, s, d, v, chain);
            lemma_chain_in_closed(p, s, d, v, chain, visited@);
        }
    }
    out
}

} // verus!

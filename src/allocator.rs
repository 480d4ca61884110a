//! Bit positions: one per router, then one per undirected link.
use vstd::prelude::*;
use crate::topology::adjacency_view;

verus! {

/// The canonical key of the link between `a` and `b`: the smaller end first.
pub open spec fn canonical(a: usize, b: usize) -> (usize, usize) {
    if a <= b {
        (a, b)
    } else {
        (b, a)
    }
}

/// The canonical keys of the adjacencies of the routers before `u`, router
/// by router, each in adjacency order.
pub open spec fn keys_upto(g: Seq<Seq<(usize, i32)>>, u: int) -> Seq<(usize, usize)>
    decreases u,
{
    if u <= 0 {
        Seq::empty()
    } else {
        keys_upto(g, u - 1) + g[u - 1].map_values(|e: (usize, i32)| canonical((u - 1) as usize, e.0))
    }
}

/// The canonical keys of every adjacency of the graph, in enumeration order.
pub open spec fn link_records(g: Seq<Seq<(usize, i32)>>) -> Seq<(usize, usize)> {
    keys_upto(g, g.len() as int)
}

/// The first occurrences of the elements of `s`, in order.
pub open spec fn first_occurrences(s: Seq<(usize, usize)>) -> Seq<(usize, usize)>
    decreases s.len(),
{
    if s.len() == 0 {
        s
    } else {
        let prev = first_occurrences(s.drop_last());
        if prev.contains(s.last()) {
            prev
        } else {
            prev.push(s.last())
        }
    }
}

/// The frozen bit positions of a topology: router `r` has bit `r`; link
/// `links[i]`, a canonical key, has bit `nb_nodes + i`.
#[derive(Debug)]
pub struct BitPositions {
    pub nb_nodes: usize,
    pub links: Vec<(usize, usize)>,
}

impl BitPositions {
    /// The links are canonical keys between routers, listed once each, and
    /// every bit position fits in `usize`.
    pub open spec fn wf(&self) -> bool {
        &&& self.nb_nodes + self.links.len() <= usize::MAX
        &&& self.links@.no_duplicates()
        &&& forall|i: int|
            0 <= i < self.links.len() ==> (#[trigger] self.links[i]).0 <= self.links[i].1
    }

    /// The number of bit positions.
    pub open spec fn bit_count(&self) -> nat {
        (self.nb_nodes + self.links.len()) as nat
    }

    /// The bit of router `r`, if it is a router of the topology.
    pub open spec fn router_bit_of(&self, r: usize) -> Option<int> {
        if r < self.nb_nodes {
            Some(r as int)
        } else {
            None
        }
    }

    /// The bit of the link between `a` and `b`, if it has one.
    pub open spec fn link_bit_of(&self, a: usize, b: usize) -> Option<int> {
        if self.links@.contains(canonical(a, b)) {
            Some(self.nb_nodes + self.links@.index_of(canonical(a, b)))
        } else {
            None
        }
    }

    /// The number of bit positions.
    pub fn nb_bits(&self) -> (r: usize)
        requires
            self.wf(),
        ensures
            r == self.bit_count(),
    {
        self.nb_nodes + self.links.len()
    }

    /// The number of links.
    pub fn nb_links(&self) -> (r: usize)
        ensures
            r == self.links.len(),
    {
        self.links.len()
    }

    /// The bit of router `r`, if it is a router of the topology.
    pub fn router_bit(&self, r: usize) -> (res: Option<usize>)
        ensures
            r < self.nb_nodes ==> res == Some(r),
            r >= self.nb_nodes ==> res is None,
            res matches Some(bit) ==> self.router_bit_of(r) == Some(bit as int),
            res is None ==> self.router_bit_of(r) is None,
    {
        if r < self.nb_nodes {
            Some(r)
        } else {
            None
        }
    }

    /// The bit of the link between `a` and `b`, in either order; `None` for
    /// a link that has no bit.
    pub fn link_bit(&self, a: usize, b: usize) -> (res: Option<usize>)
        requires
            self.wf(),
        ensures
            res matches Some(bit) ==> self.link_bit_of(a, b) == Some(bit as int),
            res is None ==> self.link_bit_of(a, b) is None,
    {
        let key = if a <= b {
            (a, b)
        } else {
            (b, a)
        };
        let mut i: usize = 0;
        while i < self.links.len()
            invariant
                self.wf(),
                key == canonical(a, b),
                i <= self.links.len(),
                forall|j: int| 0 <= j < i ==> self.links[j] != key,
            decreases self.links.len() - i,
        {
            let (x, y) = self.links[i];
            if x == key.0 && y == key.1 {
                proof {
                    assert(self.links@[i as int] == key);
                    assert(self.links@.contains(key));
                    assert(self.links@[self.links@.index_of(key)] == key);
                }
                return Some(self.nb_nodes + i);
            }
            i = i + 1;
        }
        None
    }
}

/// The canonical keys of the adjacencies of router `u`.
pub open spec fn row_keys(g: Seq<Seq<(usize, i32)>>, u: int) -> Seq<(usize, usize)> {
    g[u].map_values(|e: (usize, i32)| canonical(u as usize, e.0))
}

proof fn lemma_keys_upto_len(g: Seq<Seq<(usize, i32)>>, u: int, v: int)
    requires
        0 <= u <= v <= g.len(),
    ensures
        keys_upto(g, u).len() <= keys_upto(g, v).len(),
    decreases v - u,
{
    if u < v {
        lemma_keys_upto_len(g, u, v - 1);
    }
}

/// `first_occurrences` keeps every element once and drops nothing else.
pub proof fn lemma_first_occurrences(s: Seq<(usize, usize)>)
    ensures
        first_occurrences(s).no_duplicates(),
        first_occurrences(s).len() <= s.len(),
        forall|x: (usize, usize)| first_occurrences(s).contains(x) <==> s.contains(x),
    decreases s.len(),
{
    if s.len() > 0 {
        let t = s.drop_last();
        lemma_first_occurrences(t);
        assert forall|x: (usize, usize)| s.contains(x) <==> t.contains(x) || x == s.last() by {
            if s.contains(x) {
                let i = choose|i: int| 0 <= i < s.len() && s[i] == x;
                if i < t.len() {
                    assert(t[i] == x);
                }
            }
            if t.contains(x) {
                let i = choose|i: int| 0 <= i < t.len() && t[i] == x;
                assert(s[i] == x);
            }
            if x == s.last() {
                assert(s[s.len() - 1] == x);
            }
        }
        let prev = first_occurrences(t);
        if !prev.contains(s.last()) {
            let q = prev.push(s.last());
            assert forall|x: (usize, usize)| q.contains(x) <==> prev.contains(x) || x == s.last() by {
                if q.contains(x) {
                    let i = choose|i: int| 0 <= i < q.len() && q[i] == x;
                    if i < prev.len() {
                        assert(prev[i] == x);
                    }
                }
                if prev.contains(x) {
                    let i = choose|i: int| 0 <= i < prev.len() && prev[i] == x;
                    assert(q[i] == x);
                }
                if x == s.last() {
                    assert(q[q.len() - 1] == x);
                }
            }
            assert forall|i: int, j: int| 0 <= i < q.len() && 0 <= j < q.len() && i != j implies q[i]
                != q[j] by {
                if i < prev.len() && j < prev.len() {
                    assert(prev[i] != prev[j]);
                } else if i < prev.len() {
                    assert(prev.contains(prev[i]));
                } else if j < prev.len() {
                    assert(prev.contains(prev[j]));
                }
            }
        }
    }
}

/// Whether `links` holds `key`.
fn contains_link(links: &Vec<(usize, usize)>, key: (usize, usize)) -> (r: bool)
    ensures
        r == links@.contains(key),
{
    let mut i: usize = 0;
    while i < links.len()
        invariant
            i <= links.len(),
            forall|j: int| 0 <= j < i ==> links[j] != key,
        decreases links.len() - i,
    {
        let (x, y) = links[i];
        if x == key.0 && y == key.1 {
            assert(links@[i as int] == key);
            return true;
        }
        i = i + 1;
    }
    false
}

/// Gives router `r` bit `r`, and each undirected link, in the order in
/// which its adjacencies are first met (router by router, each in adjacency
/// order), the next bit after the routers' and the earlier links'. Both
/// directions of a link share its canonical key, hence its bit.
pub fn links_to_bp(graph: &Vec<Vec<(usize, i32)>>) -> (r: BitPositions)
    requires
        graph.len() + link_records(adjacency_view(graph)).len() <= usize::MAX,
    ensures
        r.wf(),
        r.nb_nodes == graph.len(),
        r.links@ == first_occurrences(link_records(adjacency_view(graph))),
{
    let ghost g = adjacency_view(graph);
    let n = graph.len();
    let mut links: Vec<(usize, usize)> = Vec::new();
    let mut u: usize = 0;
    while u < n
        invariant
            g == adjacency_view(graph),
            n == g.len(),
            n + link_records(g).len() <= usize::MAX,
            u <= n,
            links@ == first_occurrences(keys_upto(g, u as int)),
            links@.no_duplicates(),
            links.len() <= keys_upto(g, u as int).len(),
            forall|i: int| 0 <= i < links.len() ==> (#[trigger] links[i]).0 <= links[i].1,
        decreases n - u,
    {
        let row = &graph[u];
        let mut k: usize = 0;
        proof {
            lemma_keys_upto_len(g, u + 1, n as int);
            assert(keys_upto(g, u as int) + row_keys(g, u as int).take(0) =~= keys_upto(g, u as int));
        }
        while k < row.len()
            invariant
                g == adjacency_view(graph),
                n == g.len(),
                n + link_records(g).len() <= usize::MAX,
                keys_upto(g, u + 1).len() <= link_records(g).len(),
                u < n,
                row@ == g[u as int],
                k <= row.len(),
                links@ == first_occurrences(keys_upto(g, u as int) + row_keys(g, u as int).take(k as int)),
                links@.no_duplicates(),
                links.len() <= keys_upto(g, u as int).len() + k,
                forall|i: int| 0 <= i < links.len() ==> (#[trigger] links[i]).0 <= links[i].1,
            decreases row.len() - k,
        {
            let v = row[k].0;
            let key = if u <= v {
                (u, v)
            } else {
                (v, u)
            };
            let ghost prefix = keys_upto(g, u as int) + row_keys(g, u as int).take(k as int);
            let ghost next = keys_upto(g, u as int) + row_keys(g, u as int).take(k + 1);
            proof {
                assert(row_keys(g, u as int)[k as int] == key);
                assert(next.drop_last() =~= prefix);
                assert(next.last() == key);
            }
            if !contains_link(&links, key) {
                let ghost before = links@;
                links.push(key);
                proof {
                    assert forall|i: int, j: int|
                        0 <= i < links.len() && 0 <= j < links.len() && i != j implies links@[i]
                        != links@[j] by {
                        if i < before.len() && j < before.len() {
                            assert(before[i] != before[j]);
                        } else if i < before.len() {
                            assert(before.contains(before[i]));
                        } else if j < before.len() {
                            assert(before.contains(before[j]));
                        }
                    }
                }
            }
            k = k + 1;
        }
        proof {
            assert(keys_upto(g, u as int) + row_keys(g, u as int).take(row.len() as int) =~= keys_upto(
                g,
                u + 1,
            ));
        }
        u = u + 1;
    }
    BitPositions { nb_nodes: n, links }
}

/// The bit positions of a topology form a bijection: routers take
/// `[0, R)`, one each, and never a link's bit; every undirected link takes exactly one position of
/// `[R, R + L)`, the same whichever end is named first; distinct links take
/// distinct positions; and position `R + i` belongs to the i-th link.
pub proof fn lemma_bit_positions_bijective(g: Seq<Seq<(usize, i32)>>, bp: BitPositions)
    requires
        bp.wf(),
        bp.nb_nodes == g.len(),
        bp.links@ == first_occurrences(link_records(g)),
    ensures
        forall|r: usize|
            #![trigger bp.router_bit_of(r)]
            r < g.len() ==> (bp.router_bit_of(r) matches Some(bit) && 0 <= bit < bp.nb_nodes),
        forall|r1: usize, r2: usize|
            #![trigger bp.router_bit_of(r1), bp.router_bit_of(r2)]
            bp.router_bit_of(r1) is Some && r1 != r2 ==> bp.router_bit_of(r1) != bp.router_bit_of(r2),
        forall|r: usize, a: usize, b: usize|
            #![trigger bp.router_bit_of(r), bp.link_bit_of(a, b)]
            bp.router_bit_of(r) is Some ==> bp.router_bit_of(r) != bp.link_bit_of(a, b),
        forall|a: usize, b: usize|
            #![trigger bp.link_bit_of(a, b)]
            link_records(g).contains(canonical(a, b)) ==> (bp.link_bit_of(a, b) matches Some(bit)
                && bp.nb_nodes <= bit < bp.bit_count()),
        forall|a: usize, b: usize| #[trigger] bp.link_bit_of(a, b) == bp.link_bit_of(b, a),
        forall|a: usize, b: usize|
            #[trigger] bp.link_bit_of(a, b) is Some ==> link_records(g).contains(canonical(a, b)),
        forall|a1: usize, b1: usize, a2: usize, b2: usize|
            #![trigger bp.link_bit_of(a1, b1), bp.link_bit_of(a2, b2)]
            bp.link_bit_of(a1, b1) is Some && canonical(a1, b1) != canonical(a2, b2) ==> bp.link_bit_of(
                a1,
                b1,
            ) != bp.link_bit_of(a2, b2),
        forall|i: int|
            0 <= i < bp.links.len() ==> bp.link_bit_of((#[trigger] bp.links[i]).0, bp.links[i].1)
                == Some(bp.nb_nodes + i),
{
    lemma_first_occurrences(link_records(g));
    let links = bp.links@;
    assert forall|r: usize, a: usize, b: usize|
        #![trigger bp.router_bit_of(r), bp.link_bit_of(a, b)]
        bp.router_bit_of(r) is Some implies bp.router_bit_of(r) != bp.link_bit_of(a, b) by {
        let key = canonical(a, b);
        if links.contains(key) {
            assert(links[links.index_of(key)] == key);
        }
    }
    assert forall|a: usize, b: usize| #[trigger] bp.link_bit_of(a, b) == bp.link_bit_of(b, a) by {
        assert(canonical(a, b) == canonical(b, a));
    }
    assert forall|a: usize, b: usize|
        #![trigger bp.link_bit_of(a, b)]
        link_records(g).contains(canonical(a, b)) implies (bp.link_bit_of(a, b) matches Some(bit)
            && bp.nb_nodes <= bit < bp.bit_count()) by {
        assert(links.contains(canonical(a, b)));
        assert(links[links.index_of(canonical(a, b))] == canonical(a, b));
    }
    assert forall|a1: usize, b1: usize, a2: usize, b2: usize|
        #![trigger bp.link_bit_of(a1, b1), bp.link_bit_of(a2, b2)]
        bp.link_bit_of(a1, b1) is Some && canonical(a1, b1) != canonical(a2, b2) implies bp.link_bit_of(
            a1,
            b1,
        ) != bp.link_bit_of(a2, b2) by {
        let k1 = canonical(a1, b1);
        let k2 = canonical(a2, b2);
        assert(links[links.index_of(k1)] == k1);
        if links.contains(k2) {
            assert(links[links.index_of(k2)] == k2);
        }
    }
    assert forall|i: int| 0 <= i < bp.links.len() implies bp.link_bit_of(
        (#[trigger] bp.links[i]).0,
        bp.links[i].1,
    ) == Some(bp.nb_nodes + i) by {
        let key = links[i];
        assert(bp.links[i].0 <= bp.links[i].1);
        assert(canonical(key.0, key.1) == key);
        assert(links.contains(key));
        assert(links[links.index_of(key)] == key);
        assert(links.index_of(key) == i);
    }
}

} // verus!

use vstd::prelude::*;

use crate::graph::{
    adjacency, endpoints_below, lemma_neighbors_below, lemma_positions_filter, linked, neighbors, positions, resolve_edges,
    resolved_edges,
};
use crate::traversal::{graph_levels, level_from_first_source};
use crate::two_coloring::{
    lemma_all_colored, lemma_begin_round, lemma_color_neighbor, lemma_finish_node, lemma_initial,
    lemma_neighbor_agrees, lemma_neighbor_conflict, lemma_state_basics, search_state, two_colorable,
};

verus! {

/// An undirected edge written with its smaller endpoint first.
pub open spec fn ordered_pair(source: usize, target: usize) -> (usize, usize) {
    if source < target {
        (source, target)
    } else {
        (target, source)
    }
}

/// Writes an undirected edge with its smaller endpoint first.
pub fn ordered_edge(source: usize, target: usize) -> (edge: (usize, usize))
    ensures
        edge == ordered_pair(source, target),
{
    if source < target {
        (source, target)
    } else {
        (target, source)
    }
}

/// Writing an edge with its smaller endpoint first forgets its direction, and nothing else.
pub proof fn lemma_ordered_pair_symmetric(a: usize, b: usize, c: usize, d: usize)
    ensures
        ordered_pair(a, b) == ordered_pair(b, a),
        ordered_pair(a, b).0 <= ordered_pair(a, b).1,
        ordered_pair(a, b) == ordered_pair(c, d) <==> ((a == c && b == d) || (a == d && b == c)),
{
}

/// A set of undirected edges, each held once with its smaller endpoint first.
pub struct EdgeSet {
    pairs: Vec<(usize, usize)>,
}

impl EdgeSet {
    /// The edges held.
    pub closed spec fn view(&self) -> Set<(usize, usize)> {
        self.pairs@.to_set()
    }

    /// No edge is held twice.
    pub closed spec fn wf(&self) -> bool {
        self.pairs@.no_duplicates()
    }

    /// Whether `pair` is held.
    pub fn contains(&self, pair: (usize, usize)) -> (found: bool)
        ensures
            found == self.view().contains(pair),
    {
        let mut i: usize = 0;
        while i < self.pairs.len()
            invariant
                i <= self.pairs.len(),
                forall|j: int| 0 <= j < i ==> self.pairs@[j] != pair,
            decreases self.pairs.len() - i,
        {
            let held = self.pairs[i];
            if held.0 == pair.0 && held.1 == pair.1 {
                assert(self.pairs@.contains(pair));
                return true;
            }
            i = i + 1;
        }
        false
    }
}

/// The set of the undirected edges among `edges`, each written with its smaller endpoint first.
pub fn edge_set(edges: &[(usize, usize)]) -> (set: EdgeSet)
    ensures
        set.wf(),
        forall|p: (usize, usize)|
            set.view().contains(p) <==> exists|i: int|
                0 <= i < edges@.len() && p == ordered_pair(edges@[i].0, edges@[i].1),
{
    let mut pairs: Vec<(usize, usize)> = Vec::new();
    let mut k: usize = 0;
    while k < edges.len()
        invariant
            k <= edges.len(),
            pairs@.no_duplicates(),
            forall|p: (usize, usize)|
                pairs@.contains(p) <==> exists|i: int|
                    0 <= i < k && p == ordered_pair(edges@[i].0, edges@[i].1),
        decreases edges.len() - k,
    {
        let pair = ordered_edge(edges[k].0, edges[k].1);
        let held = EdgeSet { pairs };
        let present = held.contains(pair);
        pairs = held.pairs;
        let ghost before = pairs@;
        if !present {
            pairs.push(pair);
            assert forall|p: (usize, usize)| pairs@.contains(p) implies before.contains(p) || p
                == pair by {
                let j = choose|j: int| 0 <= j < pairs@.len() && pairs@[j] == p;
                if j < before.len() {
                    assert(before[j] == p);
                }
            }
            assert(pairs@[before.len() as int] == pair);
            assert forall|p: (usize, usize)| before.contains(p) implies pairs@.contains(p) by {
                let j = choose|j: int| 0 <= j < before.len() && before[j] == p;
                assert(pairs@[j] == p);
            }
        }
        assert(pairs@.contains(pair));
        assert forall|p: (usize, usize)| pairs@.contains(p) <==> (before.contains(p) || p == pair) by {
            if present {
                assert(pairs@ == before);
            }
        }
        assert forall|p: (usize, usize)|
            pairs@.contains(p) <==> exists|i: int|
                0 <= i < k + 1 && p == ordered_pair(edges@[i].0, edges@[i].1) by {
            if p == pair {
                assert(p == ordered_pair(edges@[k as int].0, edges@[k as int].1));
            }
            if before.contains(p) {
                let i = choose|i: int| 0 <= i < k && p == ordered_pair(edges@[i].0, edges@[i].1);
                assert(0 <= i < k + 1 && p == ordered_pair(edges@[i].0, edges@[i].1));
            }
            if exists|i: int| 0 <= i < k + 1 && p == ordered_pair(edges@[i].0, edges@[i].1) {
                let i = choose|i: int| 0 <= i < k + 1 && p == ordered_pair(edges@[i].0, edges@[i].1);
                if i < k {
                    assert(exists|i: int| 0 <= i < k && p == ordered_pair(edges@[i].0, edges@[i].1));
                }
            }
        }
        k = k + 1;
    }
    let set = EdgeSet { pairs };
    assert forall|p: (usize, usize)| set.view().contains(p) <==> set.pairs@.contains(p) by {}
    set
}

/// An edge set built from `edges` holds the edge between `u` and `w` exactly when the two are
/// joined by one of `edges`.
proof fn lemma_edge_set_linked(set: Set<(usize, usize)>, edges: Seq<(usize, usize)>, u: usize, w: usize)
    requires
        forall|p: (usize, usize)|
            set.contains(p) <==> exists|i: int|
                0 <= i < edges.len() && p == ordered_pair(edges[i].0, edges[i].1),
    ensures
        set.contains(ordered_pair(u, w)) <==> linked(edges, u as int, w as int),
{
    if set.contains(ordered_pair(u, w)) {
        let i = choose|i: int|
            0 <= i < edges.len() && ordered_pair(u, w) == ordered_pair(edges[i].0, edges[i].1);
        lemma_ordered_pair_symmetric(u, w, edges[i].0, edges[i].1);
    }
    if linked(edges, u as int, w as int) {
        let i = choose|i: int|
            0 <= i < edges.len() && ((edges[i].0 == u && edges[i].1 == w) || (edges[i].0 == w
                && edges[i].1 == u));
        lemma_ordered_pair_symmetric(u, w, edges[i].0, edges[i].1);
    }
}

/// Every two members of `group` are joined by an edge of `edge_set`.
pub fn complete_subgraph(group: &[usize], edge_set: &EdgeSet) -> (complete: bool)
    ensures
        complete == forall|i: int, j: int|
            0 <= i < j < group@.len() ==> edge_set.view().contains(
                #[trigger] ordered_pair(group@[i], group@[j]),
            ),
{
    let mut offset: usize = 0;
    while offset < group.len()
        invariant
            offset <= group.len(),
            forall|i: int, j: int|
                0 <= i < offset && i < j < group@.len() ==> edge_set.view().contains(
                    #[trigger] ordered_pair(group@[i], group@[j]),
                ),
        decreases group.len() - offset,
    {
        let mut t: usize = offset + 1;
        while t < group.len()
            invariant
                offset < group.len(),
                offset + 1 <= t <= group.len(),
                forall|i: int, j: int|
                    0 <= i < offset && i < j < group@.len() ==> edge_set.view().contains(
                        #[trigger] ordered_pair(group@[i], group@[j]),
                    ),
                forall|j: int|
                    offset < j < t ==> edge_set.view().contains(
                        #[trigger] ordered_pair(group@[offset as int], group@[j]),
                    ),
            decreases group.len() - t,
        {
            if !edge_set.contains(ordered_edge(group[offset], group[t])) {
                return false;
            }
            t = t + 1;
        }
        offset = offset + 1;
    }
    true
}

/// Every member of `left` is joined to every member of `right` by an edge of `edge_set`.
pub fn complete_bipartite_subgraph(left: &[usize], right: &[usize], edge_set: &EdgeSet) -> (complete:
    bool)
    ensures
        complete == forall|i: int, j: int|
            0 <= i < left@.len() && 0 <= j < right@.len() ==> edge_set.view().contains(
                #[trigger] ordered_pair(left@[i], right@[j]),
            ),
{
    let mut i: usize = 0;
    while i < left.len()
        invariant
            i <= left.len(),
            forall|a: int, b: int|
                0 <= a < i && 0 <= b < right@.len() ==> edge_set.view().contains(
                    #[trigger] ordered_pair(left@[a], right@[b]),
                ),
        decreases left.len() - i,
    {
        let mut j: usize = 0;
        while j < right.len()
            invariant
                i < left.len(),
                j <= right.len(),
                forall|a: int, b: int|
                    0 <= a < i && 0 <= b < right@.len() ==> edge_set.view().contains(
                        #[trigger] ordered_pair(left@[a], right@[b]),
                    ),
                forall|b: int|
                    0 <= b < j ==> edge_set.view().contains(
                        #[trigger] ordered_pair(left@[i as int], right@[b]),
                    ),
            decreases right.len() - j,
        {
            if !edge_set.contains(ordered_edge(left[i], right[j])) {
                return false;
            }
            j = j + 1;
        }
        i = i + 1;
    }
    true
}

/// Nodes `a`, `b`, `c`, `d`, `e` are pairwise joined by edges.
pub open spec fn is_k5(edges: Seq<(usize, usize)>, a: int, b: int, c: int, d: int, e: int) -> bool {
    &&& linked(edges, a, b)
    &&& linked(edges, a, c)
    &&& linked(edges, a, d)
    &&& linked(edges, a, e)
    &&& linked(edges, b, c)
    &&& linked(edges, b, d)
    &&& linked(edges, b, e)
    &&& linked(edges, c, d)
    &&& linked(edges, c, e)
    &&& linked(edges, d, e)
}

/// Some five distinct nodes below `n` are pairwise joined: the graph holds a complete graph
/// on five nodes.
pub open spec fn has_k5(n: int, edges: Seq<(usize, usize)>) -> bool {
    exists|a: int, b: int, c: int, d: int, e: int|
        0 <= a < b < c < d < e < n && #[trigger] is_k5(edges, a, b, c, d, e)
}

/// Nodes `a`, `b`, `c` are each joined to each of `d`, `e`, `f`.
pub open spec fn is_k33(
    edges: Seq<(usize, usize)>,
    a: int,
    b: int,
    c: int,
    d: int,
    e: int,
    f: int,
) -> bool {
    &&& linked(edges, a, d)
    &&& linked(edges, a, e)
    &&& linked(edges, a, f)
    &&& linked(edges, b, d)
    &&& linked(edges, b, e)
    &&& linked(edges, b, f)
    &&& linked(edges, c, d)
    &&& linked(edges, c, e)
    &&& linked(edges, c, f)
}

/// The two parts `a < b < c` and `d < e < f` that the search for a complete bipartite
/// graph on three and three nodes visits: six distinct nodes below `n`, where the first
/// part's members lie below `n - 5`, `n - 4` and `n - 3`.
pub open spec fn in_k33_search(n: int, a: int, b: int, c: int, d: int, e: int, f: int) -> bool {
    &&& 0 <= a < b < c
    &&& a < n - 5 && b < n - 4 && c < n - 3
    &&& 0 <= d < e < f < n
    &&& d != a && d != b && d != c
    &&& e != a && e != b && e != c
    &&& f != a && f != b && f != c
}

/// The search finds two parts of three nodes, each node of one part joined to each of the other.
pub open spec fn has_k33_in_search(n: int, edges: Seq<(usize, usize)>) -> bool {
    exists|a: int, b: int, c: int, d: int, e: int, f: int|
        in_k33_search(n, a, b, c, d, e, f) && #[trigger] is_k33(edges, a, b, c, d, e, f)
}

/// The set of edges built from `edges`, as `edge_set` states it.
spec fn is_edge_set_of(set: Set<(usize, usize)>, edges: Seq<(usize, usize)>) -> bool {
    forall|p: (usize, usize)|
        set.contains(p) <==> exists|i: int|
            0 <= i < edges.len() && p == ordered_pair(edges[i].0, edges[i].1)
}

proof fn lemma_group_of_five(set: Set<(usize, usize)>, edges: Seq<(usize, usize)>, g: Seq<usize>)
    requires
        is_edge_set_of(set, edges),
        g.len() == 5,
    ensures
        (forall|i: int, j: int|
            0 <= i < j < g.len() ==> set.contains(#[trigger] ordered_pair(g[i], g[j])))
            <==> is_k5(edges, g[0] as int, g[1] as int, g[2] as int, g[3] as int, g[4] as int),
{
    assert forall|i: int, j: int| 0 <= i < j < 5 implies set.contains(ordered_pair(g[i], g[j]))
        <==> linked(edges, g[i] as int, g[j] as int) by {
        lemma_edge_set_linked(set, edges, g[i], g[j]);
    }
    if is_k5(edges, g[0] as int, g[1] as int, g[2] as int, g[3] as int, g[4] as int) {
        assert forall|i: int, j: int| 0 <= i < j < g.len() implies set.contains(
            #[trigger] ordered_pair(g[i], g[j]),
        ) by {
            assert(linked(edges, g[i] as int, g[j] as int));
        }
    }
    if forall|i: int, j: int|
        0 <= i < j < g.len() ==> set.contains(#[trigger] ordered_pair(g[i], g[j])) {
        assert(set.contains(ordered_pair(g[0], g[1])));
        assert(set.contains(ordered_pair(g[0], g[2])));
        assert(set.contains(ordered_pair(g[0], g[3])));
        assert(set.contains(ordered_pair(g[0], g[4])));
        assert(set.contains(ordered_pair(g[1], g[2])));
        assert(set.contains(ordered_pair(g[1], g[3])));
        assert(set.contains(ordered_pair(g[1], g[4])));
        assert(set.contains(ordered_pair(g[2], g[3])));
        assert(set.contains(ordered_pair(g[2], g[4])));
        assert(set.contains(ordered_pair(g[3], g[4])));
    }
}

proof fn lemma_parts_of_three(
    set: Set<(usize, usize)>,
    edges: Seq<(usize, usize)>,
    l: Seq<usize>,
    r: Seq<usize>,
)
    requires
        is_edge_set_of(set, edges),
        l.len() == 3,
        r.len() == 3,
    ensures
        (forall|i: int, j: int|
            0 <= i < l.len() && 0 <= j < r.len() ==> set.contains(
                #[trigger] ordered_pair(l[i], r[j]),
            )) <==> is_k33(
            edges,
            l[0] as int,
            l[1] as int,
            l[2] as int,
            r[0] as int,
            r[1] as int,
            r[2] as int,
        ),
{
    assert forall|i: int, j: int| 0 <= i < 3 && 0 <= j < 3 implies set.contains(
        ordered_pair(l[i], r[j]),
    ) <==> linked(edges, l[i] as int, r[j] as int) by {
        lemma_edge_set_linked(set, edges, l[i], r[j]);
    }
    if is_k33(edges, l[0] as int, l[1] as int, l[2] as int, r[0] as int, r[1] as int, r[2] as int) {
        assert forall|i: int, j: int| 0 <= i < l.len() && 0 <= j < r.len() implies set.contains(
            #[trigger] ordered_pair(l[i], r[j]),
        ) by {
            assert(linked(edges, l[i] as int, r[j] as int));
        }
    }
    if forall|i: int, j: int|
        0 <= i < l.len() && 0 <= j < r.len() ==> set.contains(#[trigger] ordered_pair(l[i], r[j])) {
        assert(set.contains(ordered_pair(l[0], r[0])));
        assert(set.contains(ordered_pair(l[0], r[1])));
        assert(set.contains(ordered_pair(l[0], r[2])));
        assert(set.contains(ordered_pair(l[1], r[0])));
        assert(set.contains(ordered_pair(l[1], r[1])));
        assert(set.contains(ordered_pair(l[1], r[2])));
        assert(set.contains(ordered_pair(l[2], r[0])));
        assert(set.contains(ordered_pair(l[2], r[1])));
        assert(set.contains(ordered_pair(l[2], r[2])));
    }
}

/// Whether five of the `node_count` nodes are pairwise joined by `edges`.
pub fn contains_k5(node_count: usize, edges: &[(usize, usize)]) -> (found: bool)
    ensures
        found == has_k5(node_count as int, edges@),
{
    if node_count < 5 {
        return false;
    }
    let edge_set = edge_set(edges);
    let ghost set = edge_set.view();
    let ghost es = edges@;
    let n = node_count;
    let mut a: usize = 0;
    while a < n - 4
        invariant
            5 <= n, n == node_count, a <= n - 4, set == edge_set.view(), es == edges@, is_edge_set_of(set, es),
            forall|a2: int, b2: int, c2: int, d2: int, e2: int|
                0 <= a2 < a && a2 < b2 < c2 < d2 < e2 < n ==> !#[trigger] is_k5(es, a2, b2, c2, d2, e2),
        decreases n - a,
    {
        let mut b: usize = a + 1;
        while b < n - 3
            invariant
                5 <= n, n == node_count, a < n - 4, a + 1 <= b <= n - 3, set == edge_set.view(), es == edges@,
                is_edge_set_of(set, es),
                forall|a2: int, b2: int, c2: int, d2: int, e2: int|
                    0 <= a2 < a && a2 < b2 < c2 < d2 < e2 < n ==> !#[trigger] is_k5(es, a2, b2, c2, d2, e2),
                forall|b2: int, c2: int, d2: int, e2: int|
                    a < b2 < b && b2 < c2 < d2 < e2 < n ==> !#[trigger] is_k5(es, a as int, b2, c2, d2, e2),
            decreases n - b,
        {
            let mut c: usize = b + 1;
            while c < n - 2
                invariant
                    5 <= n, n == node_count, a < n - 4, a < b < n - 3, b + 1 <= c <= n - 2, set == edge_set.view(),
                    es == edges@, is_edge_set_of(set, es),
                    forall|a2: int, b2: int, c2: int, d2: int, e2: int|
                        0 <= a2 < a && a2 < b2 < c2 < d2 < e2 < n ==> !#[trigger] is_k5(es, a2, b2, c2, d2, e2),
                    forall|b2: int, c2: int, d2: int, e2: int|
                        a < b2 < b && b2 < c2 < d2 < e2 < n ==> !#[trigger] is_k5(es, a as int, b2, c2, d2, e2),
                    forall|c2: int, d2: int, e2: int|
                        b < c2 < c && c2 < d2 < e2 < n ==> !#[trigger] is_k5(es, a as int, b as int, c2, d2, e2),
                decreases n - c,
            {
                let mut d: usize = c + 1;
                while d < n - 1
                    invariant
                        5 <= n, n == node_count, a < n - 4, a < b < n - 3, b < c < n - 2, c + 1 <= d <= n - 1,
                        set == edge_set.view(), es == edges@, is_edge_set_of(set, es),
                        forall|a2: int, b2: int, c2: int, d2: int, e2: int|
                            0 <= a2 < a && a2 < b2 < c2 < d2 < e2 < n ==> !#[trigger] is_k5(es, a2, b2, c2, d2, e2),
                        forall|b2: int, c2: int, d2: int, e2: int|
                            a < b2 < b && b2 < c2 < d2 < e2 < n ==> !#[trigger] is_k5(es, a as int, b2, c2, d2, e2),
                        forall|c2: int, d2: int, e2: int|
                            b < c2 < c && c2 < d2 < e2 < n ==> !#[trigger] is_k5(es, a as int, b as int, c2, d2, e2),
                        forall|d2: int, e2: int|
                            c < d2 < d && d2 < e2 < n ==> !#[trigger] is_k5(es, a as int, b as int, c as int, d2, e2),
                    decreases n - d,
                {
                    let mut e: usize = d + 1;
                    while e < n
                        invariant
                            5 <= n, n == node_count, a < n - 4, a < b < n - 3, b < c < n - 2, c < d < n - 1,
                            d + 1 <= e <= n, set == edge_set.view(), es == edges@,
                            is_edge_set_of(set, es),
                            forall|a2: int, b2: int, c2: int, d2: int, e2: int|
                                0 <= a2 < a && a2 < b2 < c2 < d2 < e2 < n ==> !#[trigger] is_k5(es, a2, b2, c2, d2, e2),
                            forall|b2: int, c2: int, d2: int, e2: int|
                                a < b2 < b && b2 < c2 < d2 < e2 < n ==> !#[trigger] is_k5(es, a as int, b2, c2, d2, e2),
                            forall|c2: int, d2: int, e2: int|
                                b < c2 < c && c2 < d2 < e2 < n ==> !#[trigger] is_k5(es, a as int, b as int, c2, d2, e2),
                            forall|d2: int, e2: int|
                                c < d2 < d && d2 < e2 < n ==> !#[trigger] is_k5(es, a as int, b as int, c as int, d2, e2),
                            forall|e2: int|
                                d < e2 < e ==> !#[trigger] is_k5(es, a as int, b as int, c as int, d as int, e2),
                        decreases n - e,
                    {
                        let group = vec![a, b, c, d, e];
                        let complete = complete_subgraph(group.as_slice(), &edge_set);
                        proof {
                            lemma_group_of_five(set, es, group@);
                        }
                        if complete {
                            assert(is_k5(es, a as int, b as int, c as int, d as int, e as int));
                            assert(has_k5(n as int, es));
                            return true;
                        }
                        e = e + 1;
                    }
                    d = d + 1;
                }
                c = c + 1;
            }
            b = b + 1;
        }
        a = a + 1;
    }
    false
}

/// Whether the search finds two parts of three of the `node_count` nodes, each node of one
/// part joined to each node of the other by `edges`.
pub fn contains_k33(node_count: usize, edges: &[(usize, usize)]) -> (found: bool)
    ensures
        found == has_k33_in_search(node_count as int, edges@),
        forall|a: int, b: int, c: int, d: int, e: int, f: int|
            0 <= a < b < c && a < node_count - 5 && b < node_count - 4 && c < node_count - 3 && 0 <= d < e < f
                < node_count && d != a && d != b && d != c && e != a && e != b && e != c && f != a && f != b
                && f != c && #[trigger] is_k33(edges@, a, b, c, d, e, f) ==> found,
{
    proof {
        assert forall|a: int, b: int, c: int, d: int, e: int, f: int|
            0 <= a < b < c && a < node_count - 5 && b < node_count - 4 && c < node_count - 3 && 0 <= d < e < f
                < node_count && d != a && d != b && d != c && e != a && e != b && e != c && f != a && f != b
                && f != c && #[trigger] is_k33(edges@, a, b, c, d, e, f) implies has_k33_in_search(
            node_count as int,
            edges@,
        ) by {
            lemma_k33_in_range_found(node_count as int, edges@, a, b, c, d, e, f);
        }
    }
    if node_count < 6 {
        return false;
    }
    let edge_set = edge_set(edges);
    let ghost set = edge_set.view();
    let ghost es = edges@;
    let n = node_count;
    let mut a: usize = 0;
    while a < n - 5
        invariant
            6 <= n, n == node_count, a <= n - 5, set == edge_set.view(), es == edges@, is_edge_set_of(set, es),
            forall|a2: int, b2: int, c2: int, d2: int, e2: int, f2: int|
                a2 < a && in_k33_search(n as int, a2, b2, c2, d2, e2, f2) ==> !#[trigger] is_k33(es, a2, b2, c2, d2, e2, f2),
        decreases n - a,
    {
        let mut b: usize = a + 1;
        while b < n - 4
            invariant
                6 <= n, n == node_count, a < n - 5, a + 1 <= b <= n - 4, set == edge_set.view(), es == edges@,
                is_edge_set_of(set, es),
                forall|a2: int, b2: int, c2: int, d2: int, e2: int, f2: int|
                    a2 < a && in_k33_search(n as int, a2, b2, c2, d2, e2, f2) ==> !#[trigger] is_k33(es, a2, b2, c2, d2, e2, f2),
                forall|b2: int, c2: int, d2: int, e2: int, f2: int|
                    b2 < b && in_k33_search(n as int, a as int, b2, c2, d2, e2, f2) ==> !#[trigger] is_k33(es, a as int, b2, c2, d2, e2, f2),
            decreases n - b,
        {
            let mut c: usize = b + 1;
            while c < n - 3
                invariant
                    6 <= n, n == node_count, a < n - 5, a < b < n - 4, b + 1 <= c <= n - 3, set == edge_set.view(),
                    es == edges@, is_edge_set_of(set, es),
                    forall|a2: int, b2: int, c2: int, d2: int, e2: int, f2: int|
                        a2 < a && in_k33_search(n as int, a2, b2, c2, d2, e2, f2) ==> !#[trigger] is_k33(es, a2, b2, c2, d2, e2, f2),
                    forall|b2: int, c2: int, d2: int, e2: int, f2: int|
                        b2 < b && in_k33_search(n as int, a as int, b2, c2, d2, e2, f2) ==> !#[trigger] is_k33(es, a as int, b2, c2, d2, e2, f2),
                    forall|c2: int, d2: int, e2: int, f2: int|
                        c2 < c && in_k33_search(n as int, a as int, b as int, c2, d2, e2, f2) ==> !#[trigger] is_k33(es, a as int, b as int, c2, d2, e2, f2),
                decreases n - c,
            {
                let left = vec![a, b, c];
                let mut d: usize = 0;
                while d < n - 2
                    invariant
                        6 <= n, n == node_count, a < n - 5, a < b < n - 4, b < c < n - 3, d <= n - 2,
                        left@ == seq![a, b, c],
                        set == edge_set.view(), es == edges@, is_edge_set_of(set, es),
                        forall|a2: int, b2: int, c2: int, d2: int, e2: int, f2: int|
                            a2 < a && in_k33_search(n as int, a2, b2, c2, d2, e2, f2) ==> !#[trigger] is_k33(es, a2, b2, c2, d2, e2, f2),
                        forall|b2: int, c2: int, d2: int, e2: int, f2: int|
                            b2 < b && in_k33_search(n as int, a as int, b2, c2, d2, e2, f2) ==> !#[trigger] is_k33(es, a as int, b2, c2, d2, e2, f2),
                        forall|c2: int, d2: int, e2: int, f2: int|
                            c2 < c && in_k33_search(n as int, a as int, b as int, c2, d2, e2, f2) ==> !#[trigger] is_k33(es, a as int, b as int, c2, d2, e2, f2),
                        forall|d2: int, e2: int, f2: int|
                            d2 < d && in_k33_search(n as int, a as int, b as int, c as int, d2, e2, f2) ==> !#[trigger] is_k33(es, a as int, b as int, c as int, d2, e2, f2),
                    decreases n - d,
                {
                    if d == a || d == b || d == c {
                        d = d + 1;
                        continue;
                    }
                    let mut e: usize = d + 1;
                    while e < n - 1
                        invariant
                            6 <= n, n == node_count, a < n - 5, a < b < n - 4, b < c < n - 3, d < n - 2,
                            d != a && d != b && d != c, d + 1 <= e <= n - 1,
                            left@ == seq![a, b, c],
                            set == edge_set.view(), es == edges@, is_edge_set_of(set, es),
                            forall|a2: int, b2: int, c2: int, d2: int, e2: int, f2: int|
                                a2 < a && in_k33_search(n as int, a2, b2, c2, d2, e2, f2) ==> !#[trigger] is_k33(es, a2, b2, c2, d2, e2, f2),
                            forall|b2: int, c2: int, d2: int, e2: int, f2: int|
                                b2 < b && in_k33_search(n as int, a as int, b2, c2, d2, e2, f2) ==> !#[trigger] is_k33(es, a as int, b2, c2, d2, e2, f2),
                            forall|c2: int, d2: int, e2: int, f2: int|
                                c2 < c && in_k33_search(n as int, a as int, b as int, c2, d2, e2, f2) ==> !#[trigger] is_k33(es, a as int, b as int, c2, d2, e2, f2),
                            forall|d2: int, e2: int, f2: int|
                                d2 < d && in_k33_search(n as int, a as int, b as int, c as int, d2, e2, f2) ==> !#[trigger] is_k33(es, a as int, b as int, c as int, d2, e2, f2),
                            forall|e2: int, f2: int|
                                e2 < e && in_k33_search(n as int, a as int, b as int, c as int, d as int, e2, f2) ==> !#[trigger] is_k33(es, a as int, b as int, c as int, d as int, e2, f2),
                        decreases n - e,
                    {
                        if e == a || e == b || e == c {
                            e = e + 1;
                            continue;
                        }
                        let mut f: usize = e + 1;
                        while f < n
                            invariant
                                6 <= n, n == node_count, a < n - 5, a < b < n - 4, b < c < n - 3, d < n - 2,
                                d != a && d != b && d != c, d < e < n - 1, e != a && e != b && e != c,
                                e + 1 <= f <= n, left@ == seq![a, b, c],
                                set == edge_set.view(), es == edges@, is_edge_set_of(set, es),
                                forall|a2: int, b2: int, c2: int, d2: int, e2: int, f2: int|
                                    a2 < a && in_k33_search(n as int, a2, b2, c2, d2, e2, f2) ==> !#[trigger] is_k33(es, a2, b2, c2, d2, e2, f2),
                                forall|b2: int, c2: int, d2: int, e2: int, f2: int|
                                    b2 < b && in_k33_search(n as int, a as int, b2, c2, d2, e2, f2) ==> !#[trigger] is_k33(es, a as int, b2, c2, d2, e2, f2),
                                forall|c2: int, d2: int, e2: int, f2: int|
                                    c2 < c && in_k33_search(n as int, a as int, b as int, c2, d2, e2, f2) ==> !#[trigger] is_k33(es, a as int, b as int, c2, d2, e2, f2),
                                forall|d2: int, e2: int, f2: int|
                                    d2 < d && in_k33_search(n as int, a as int, b as int, c as int, d2, e2, f2) ==> !#[trigger] is_k33(es, a as int, b as int, c as int, d2, e2, f2),
                                forall|e2: int, f2: int|
                                    e2 < e && in_k33_search(n as int, a as int, b as int, c as int, d as int, e2, f2) ==> !#[trigger] is_k33(es, a as int, b as int, c as int, d as int, e2, f2),
                                forall|f2: int|
                                    f2 < f && in_k33_search(n as int, a as int, b as int, c as int, d as int, e as int, f2) ==> !#[trigger] is_k33(es, a as int, b as int, c as int, d as int, e as int, f2),
                            decreases n - f,
                        {
                            if f == a || f == b || f == c {
                                f = f + 1;
                                continue;
                            }
                            let right = vec![d, e, f];
                            let complete = complete_bipartite_subgraph(
                                left.as_slice(),
                                right.as_slice(),
                                &edge_set,
                            );
                            proof {
                                lemma_parts_of_three(set, es, left@, right@);
                            }
                            if complete {
                                assert(in_k33_search(n as int, a as int, b as int, c as int, d as int, e as int, f as int));
                                assert(is_k33(es, a as int, b as int, c as int, d as int, e as int, f as int));
                                assert(has_k33_in_search(n as int, es));
                                return true;
                            }
                            f = f + 1;
                        }
                        e = e + 1;
                    }
                    d = d + 1;
                }
                c = c + 1;
            }
            b = b + 1;
        }
        a = a + 1;
    }
    false
}

/// Whether the `node_count` nodes can be split in two sides with every edge running between
/// them, found by colouring each connected part breadth first.
pub fn is_bipartite(node_count: usize, edges: &[(usize, usize)]) -> (bipartite: bool)
    requires
        endpoints_below(edges@, node_count as int),
    ensures
        bipartite == two_colorable(node_count as int, edges@),
{
    let n = node_count;
    let adj = adjacency(n, edges);
    let ghost es = edges@;
    let ghost lists = adj.deep_view();
    assert(adj.len() == n);
    let mut color: Vec<Option<bool>> = Vec::new();
    let mut i: usize = 0;
    while i < n
        invariant
            i <= n,
            color.len() == i,
            forall|v: int| 0 <= v < i ==> color@[v] is None,
        decreases n - i,
    {
        color.push(None);
        i = i + 1;
    }
    let ghost mut root: Seq<int> = Seq::new(n as nat, |v: int| v);
    let mut queue: Vec<usize> = Vec::new();
    proof {
        assert(color@ =~= Seq::new(n as nat, |v: int| None));
        lemma_initial(n as int, es, lists, root);
    }
    let mut head: usize = 0;
    let mut start: usize = 0;
    while start < n
        invariant
            start <= n,
            n == node_count,
            es == edges@,
            lists == adj.deep_view(),
            adj.len() == n,
            head == queue.len(),
            search_state(n as int, es, lists, color@, root, queue@, head as int, 0),
            forall|v: int| 0 <= v < start ==> (#[trigger] color@[v]) is Some,
        decreases n - start,
    {
        proof {
            lemma_state_basics(n as int, es, lists, color@, root, queue@, head as int, 0);
        }
        if color[start].is_some() {
            start = start + 1;
            continue;
        }
        proof {
            lemma_begin_round(n as int, es, lists, color@, root, queue@, start);
            root = root.update(start as int, start as int);
        }
        color.set(start, Some(false));
        queue.push(start);
        proof {
            lemma_state_basics(n as int, es, lists, color@, root, queue@, head as int, 0);
        }
        while head < queue.len()
            invariant
                start < n,
                n == node_count,
                es == edges@,
                lists == adj.deep_view(),
                adj.len() == n,
                head <= queue.len(),
                search_state(n as int, es, lists, color@, root, queue@, head as int, 0),
                color@[start as int] is Some,
                forall|v: int| 0 <= v < start ==> (#[trigger] color@[v]) is Some,
                queue.len() <= n,
            decreases n - head,
        {
            proof {
                lemma_state_basics(n as int, es, lists, color@, root, queue@, head as int, 0);
            }
            let node = queue[head];
            let node_color = color[node].unwrap();
            let next_color = !node_color;
            let mut k: usize = 0;
            while k < adj[node].len()
                invariant
                    start < n,
                    n == node_count,
                    es == edges@,
                    lists == adj.deep_view(),
                    head < queue.len(),
                    node == queue@[head as int],
                    color@[node as int] == Some(node_color),
                    next_color == !node_color,
                    k <= lists[node as int].len(),
                    search_state(n as int, es, lists, color@, root, queue@, head as int, k as int),
                    color@[start as int] is Some,
                    forall|v: int| 0 <= v < start ==> (#[trigger] color@[v]) is Some,
                    adj.len() == n,
                    node < n,
                    queue.len() <= n,
                decreases lists[node as int].len() - k,
            {
                proof {
                    lemma_state_basics(n as int, es, lists, color@, root, queue@, head as int, k as int);
                    assert(adj[node as int]@ == lists[node as int]);
                }
                let neighbor = adj[node][k];
                match color[neighbor] {
                    Some(existing) => {
                        if existing != next_color {
                            proof {
                                lemma_neighbor_conflict(n as int, es, lists, color@, root, queue@, head as int, k as int);
                            }
                            return false;
                        }
                        proof {
                            lemma_neighbor_agrees(n as int, es, lists, color@, root, queue@, head as int, k as int);
                        }
                    },
                    None => {
                        proof {
                            lemma_color_neighbor(n as int, es, lists, color@, root, queue@, head as int, k as int);
                            root = root.update(neighbor as int, root[node as int]);
                        }
                        color.set(neighbor, Some(next_color));
                        queue.push(neighbor);
                        proof {
                            lemma_state_basics(n as int, es, lists, color@, root, queue@, head as int, k + 1);
                        }
                    },
                }
                k = k + 1;
            }
            proof {
                lemma_finish_node(n as int, es, lists, color@, root, queue@, head as int, k as int);
            }
            head = head + 1;
        }
        start = start + 1;
    }
    proof {
        lemma_all_colored(n as int, es, lists, color@, root, queue@);
    }
    true
}

} // verus!

verus! {

/// Whether `pair` is listed in `list`.
pub fn pair_listed(list: &[(usize, usize)], pair: (usize, usize)) -> (found: bool)
    ensures
        found == list@.contains(pair),
{
    let mut i: usize = 0;
    while i < list.len()
        invariant
            i <= list.len(),
            forall|j: int| 0 <= j < i ==> list@[j] != pair,
        decreases list.len() - i,
    {
        let held = list[i];
        if held.0 == pair.0 && held.1 == pair.1 {
            assert(list@[i as int] == pair);
            return true;
        }
        i = i + 1;
    }
    false
}

/// The undirected edges of `pairs`, each once, smaller endpoint first, in the order of their
/// first appearance; an edge from a node to itself is left out.
pub open spec fn distinct_undirected(pairs: Seq<(usize, usize)>) -> Seq<(usize, usize)>
    decreases pairs.len(),
{
    if pairs.len() == 0 {
        Seq::empty()
    } else {
        let prev = distinct_undirected(pairs.drop_last());
        let e = pairs.last();
        if e.0 == e.1 || prev.contains(ordered_pair(e.0, e.1)) {
            prev
        } else {
            prev.push(ordered_pair(e.0, e.1))
        }
    }
}

/// What `distinct_undirected` keeps: no edge twice, none from a node to itself, each with its
/// smaller endpoint first, and the endpoints of `pairs`.
proof fn lemma_distinct_undirected(pairs: Seq<(usize, usize)>, n: int)
    requires
        endpoints_below(pairs, n),
    ensures
        distinct_undirected(pairs).no_duplicates(),
        endpoints_below(distinct_undirected(pairs), n),
        forall|i: int|
            0 <= i < distinct_undirected(pairs).len() ==> #[trigger] distinct_undirected(pairs)[i].0
                < distinct_undirected(pairs)[i].1,
    decreases pairs.len(),
{
    if pairs.len() > 0 {
        let prev_pairs = pairs.drop_last();
        assert(endpoints_below(prev_pairs, n)) by {
            assert forall|i: int| 0 <= i < prev_pairs.len() implies prev_pairs[i].0 < n && prev_pairs[i].1 < n by {
                assert(prev_pairs[i] == pairs[i]);
            }
        }
        lemma_distinct_undirected(prev_pairs, n);
        let prev = distinct_undirected(prev_pairs);
        let e = pairs.last();
        assert(e == pairs[pairs.len() - 1]);
        if !(e.0 == e.1 || prev.contains(ordered_pair(e.0, e.1))) {
            let cur = prev.push(ordered_pair(e.0, e.1));
            assert forall|i: int, j: int| 0 <= i < cur.len() && 0 <= j < cur.len() && i != j implies cur[i] != cur[j] by {
                if i < prev.len() && j < prev.len() {
                } else if i < prev.len() {
                    assert(prev.contains(prev[i]));
                } else if j < prev.len() {
                    assert(prev.contains(prev[j]));
                }
            }
            assert forall|i: int| 0 <= i < cur.len() implies cur[i].0 < n && cur[i].1 < n by {
                if i < prev.len() {
                    assert(cur[i] == prev[i]);
                }
            }
            assert forall|i: int| 0 <= i < cur.len() implies #[trigger] cur[i].0 < cur[i].1 by {
                if i < prev.len() {
                    assert(cur[i] == prev[i]);
                }
            }
        }
    }
}

/// The undirected edges between named nodes, as pairs of node positions: edges with an
/// unknown endpoint and edges from a node to itself are dropped, and each undirected edge is
/// kept once, smaller position first, where it first appears.
pub fn indexed_edges(ids: &Vec<String>, edges: &Vec<(String, String)>) -> (result: Vec<(usize, usize)>)
    ensures
        result@ == distinct_undirected(resolved_edges(ids.deep_view(), edges.deep_view())),
        endpoints_below(result@, ids.len() as int),
        result@.no_duplicates(),
{
    let pairs = resolve_edges(ids, edges);
    let ghost all = pairs@;
    let mut result: Vec<(usize, usize)> = Vec::new();
    let mut i: usize = 0;
    while i < pairs.len()
        invariant
            i <= pairs.len(),
            pairs@ == all,
            result@ == distinct_undirected(all.take(i as int)),
        decreases pairs.len() - i,
    {
        let (source, target) = pairs[i];
        assert(all.take(i + 1).drop_last() =~= all.take(i as int));
        assert(all.take(i + 1).last() == (source, target));
        if source != target {
            let key = ordered_edge(source, target);
            if !pair_listed(result.as_slice(), key) {
                result.push(key);
            }
        }
        i = i + 1;
    }
    assert(all.take(pairs.len() as int) =~= all);
    proof {
        lemma_distinct_undirected(all, ids.len() as int);
    }
    result
}

/// The tests that a planar graph on `n` nodes with the undirected `edges` passes: at most
/// `3n - 6` edges, at most `2n - 4` when two-colourable, no complete graph on five nodes,
/// and no complete bipartite graph on three and three nodes that the search visits. Fewer
/// than five nodes pass at once.
pub open spec fn planarity_guards_hold(n: int, edges: Seq<(usize, usize)>) -> bool {
    n < 5 || (edges.len() <= 3 * n - 6 && !(two_colorable(n, edges) && n >= 3 && edges.len() > 2
        * n - 4) && !has_k5(n, edges) && !has_k33_in_search(n, edges))
}

/// Whether a graph on `node_count` nodes with the undirected `edges` passes the tests that
/// every planar graph passes.
pub fn passes_planarity_guards(node_count: usize, edges: &[(usize, usize)]) -> (passes: bool)
    requires
        endpoints_below(edges@, node_count as int),
    ensures
        passes == planarity_guards_hold(node_count as int, edges@),
        has_k5(node_count as int, edges@) ==> !passes,
        forall|a: int, b: int, c: int, d: int, e: int, f: int|
            0 <= a < b < c && a < node_count - 5 && b < node_count - 4 && c < node_count - 3 && 0 <= d < e < f
                < node_count && d != a && d != b && d != c && e != a && e != b && e != c && f != a && f != b
                && f != c && #[trigger] is_k33(edges@, a, b, c, d, e, f) ==> !passes,
        edges.len() > 3 * node_count - 6 && node_count >= 5 ==> !passes,
        two_colorable(node_count as int, edges@) && node_count >= 5 && edges.len() > 2 * node_count - 4 ==> !passes,
        node_count < 5 ==> passes,
        node_count >= 5 && edges.len() <= 3 * node_count - 6 && !(two_colorable(node_count as int, edges@)
            && edges.len() > 2 * node_count - 4) && !has_k5(node_count as int, edges@) && (forall|
            a: int,
            b: int,
            c: int,
            d: int,
            e: int,
            f: int,
        |
            0 <= a < b < c && a < node_count - 5 && b < node_count - 4 && c < node_count - 3 && 0 <= d < e < f
                < node_count && d != a && d != b && d != c && e != a && e != b && e != c && f != a && f != b
                && f != c ==> !#[trigger] is_k33(edges@, a, b, c, d, e, f)) ==> passes,
{
    proof {
        if has_k5(node_count as int, edges@) {
            lemma_k5_fails_guards(node_count as int, edges@);
        }
        assert forall|a: int, b: int, c: int, d: int, e: int, f: int|
            0 <= a < b < c && a < node_count - 5 && b < node_count - 4 && c < node_count - 3 && 0 <= d < e < f
                < node_count && d != a && d != b && d != c && e != a && e != b && e != c && f != a && f != b
                && f != c && #[trigger] is_k33(edges@, a, b, c, d, e, f) implies !planarity_guards_hold(
            node_count as int,
            edges@,
        ) by {
            lemma_k33_in_range_found(node_count as int, edges@, a, b, c, d, e, f);
        }
    }
    if node_count < 5 {
        return true;
    }
    let edge_count = edges.len() as u128;
    let nodes = node_count as u128;
    if edge_count > 3 * nodes - 6 {
        return false;
    }
    if is_bipartite(node_count, edges) && node_count >= 3 && edge_count > 2 * nodes - 4 {
        return false;
    }
    !contains_k5(node_count, edges) && !contains_k33(node_count, edges)
}

/// A graph holding five pairwise joined nodes fails the planarity tests.
pub proof fn lemma_k5_fails_guards(n: int, edges: Seq<(usize, usize)>)
    requires
        has_k5(n, edges),
    ensures
        n >= 5,
        !planarity_guards_hold(n, edges),
{
    let (a, b, c, d, e) = choose|a: int, b: int, c: int, d: int, e: int|
        0 <= a < b < c < d < e < n && #[trigger] is_k5(edges, a, b, c, d, e);
}

/// Three nodes `a < b < c`, the first below `n - 5`, the second below `n - 4`, the third below
/// `n - 3`, each joined to each of three other nodes `d < e < f` anywhere below `n`, make the
/// search for a complete bipartite graph succeed and the planarity tests fail.
pub proof fn lemma_k33_in_range_found(n: int, edges: Seq<(usize, usize)>, a: int, b: int, c: int, d: int, e: int, f: int)
    requires
        0 <= a < b < c,
        a < n - 5,
        b < n - 4,
        c < n - 3,
        0 <= d < e < f < n,
        d != a && d != b && d != c,
        e != a && e != b && e != c,
        f != a && f != b && f != c,
        is_k33(edges, a, b, c, d, e, f),
    ensures
        has_k33_in_search(n, edges),
        !planarity_guards_hold(n, edges),
{
    assert(in_k33_search(n, a, b, c, d, e, f));
}

} // verus!

verus! {

/// The largest of `levels`, or 0 when there are none.
pub open spec fn max_level(levels: Seq<usize>) -> int
    decreases levels.len(),
{
    if levels.len() == 0 {
        0
    } else {
        let rest = max_level(levels.drop_last());
        if levels.last() > rest {
            levels.last() as int
        } else {
            rest
        }
    }
}

/// Whether a position has level `d`.
pub open spec fn has_level(levels: Seq<usize>, d: int) -> spec_fn(usize) -> bool {
    |i: usize| levels[i as int] == d
}

/// The positions below `k` whose level is `d`, in increasing order.
pub open spec fn with_level_below(levels: Seq<usize>, k: int, d: int) -> Seq<usize> {
    positions(k).filter(has_level(levels, d))
}

/// The positions whose level is `d`, in increasing order.
pub open spec fn with_level(levels: Seq<usize>, d: int) -> Seq<usize> {
    with_level_below(levels, levels.len() as int, d)
}

proof fn lemma_max_level(levels: Seq<usize>)
    ensures
        0 <= max_level(levels),
        forall|i: int| 0 <= i < levels.len() ==> levels[i] <= max_level(levels),
        levels.len() > 0 ==> exists|i: int| 0 <= i < levels.len() && levels[i] == max_level(levels),
    decreases levels.len(),
{
    if levels.len() > 0 {
        let rest = levels.drop_last();
        lemma_max_level(rest);
        assert forall|i: int| 0 <= i < levels.len() implies levels[i] <= max_level(levels) by {
            if i < rest.len() {
                assert(rest[i] == levels[i]);
            }
        }
        let last = levels.len() - 1;
        assert(levels[last] == levels.last());
        if levels.last() as int != max_level(levels) {
            let i = choose|i: int| 0 <= i < rest.len() && rest[i] == max_level(rest);
            assert(levels[i] == rest[i]);
        }
    }
}

/// The positions grouped by level, one group per level from 0 to the largest, each in
/// increasing order.
pub fn level_groups(levels: &[usize]) -> (groups: Vec<Vec<usize>>)
    requires
        forall|i: int| 0 <= i < levels@.len() ==> levels@[i] < usize::MAX,
    ensures
        groups.len() == max_level(levels@) + 1,
        forall|d: int| 0 <= d < groups.len() ==> #[trigger] groups@[d]@ == with_level(levels@, d),
{
    proof {
        lemma_max_level(levels@);
    }
    let mut top: usize = 0;
    let mut i: usize = 0;
    while i < levels.len()
        invariant
            i <= levels.len(),
            top as int == max_level(levels@.take(i as int)),
        decreases levels.len() - i,
    {
        assert(levels@.take(i + 1).drop_last() =~= levels@.take(i as int));
        if levels[i] > top {
            top = levels[i];
        }
        i = i + 1;
    }
    assert(levels@.take(levels.len() as int) =~= levels@);
    if levels.len() > 0 {
        let ghost j = choose|j: int| 0 <= j < levels@.len() && levels@[j] == max_level(levels@);
        assert(top < usize::MAX);
    }
    let mut groups: Vec<Vec<usize>> = Vec::new();
    let mut d: usize = 0;
    while d <= top
        invariant
            top < usize::MAX,
            top as int == max_level(levels@),
            d <= top + 1,
            groups.len() == d,
            forall|e: int| 0 <= e < d ==> #[trigger] groups@[e]@ == with_level(levels@, e),
        decreases top + 1 - d,
    {
        let mut group: Vec<usize> = Vec::new();
        let mut v: usize = 0;
        assert(with_level_below(levels@, 0, d as int) =~= Seq::<usize>::empty());
        while v < levels.len()
            invariant
                v <= levels.len(),
                group@ == with_level_below(levels@, v as int, d as int),
            decreases levels.len() - v,
        {
            proof {
                broadcast use vstd::seq::Seq::lemma_filter_push;

                assert(positions(v + 1) =~= positions(v as int).push(v));
            }
            if levels[v] == d {
                group.push(v);
            }
            v = v + 1;
        }
        let ghost prev = groups@;
        groups.push(group);
        proof {
            assert forall|e: int| 0 <= e < d + 1 implies #[trigger] groups@[e]@ == with_level(levels@, e) by {
                if e < d {
                    assert(groups@[e] == prev[e]);
                }
            }
        }
        d = d + 1;
    }
    groups
}

/// Grouping by level puts every position in exactly one group, the group of its own level,
/// which is one of the groups `level_groups` returns, and no group lists a position twice.
pub proof fn lemma_level_groups_partition(levels: Seq<usize>, v: int, d: int)
    requires
        levels.len() <= usize::MAX,
        0 <= v < levels.len(),
    ensures
        with_level(levels, d).contains(v as usize) <==> levels[v] == d,
        with_level(levels, d).no_duplicates(),
        levels[v] <= max_level(levels),
{
    lemma_max_level(levels);
    lemma_positions_filter(levels.len() as int, has_level(levels, d));
    assert(with_level(levels, d).contains(v as usize) <==> (v < levels.len() && has_level(levels, d)(v as usize)));
}

/// The neighbour lists of `n` nodes along `edges`.
pub open spec fn neighbor_lists(edges: Seq<(usize, usize)>, n: int) -> Seq<Seq<usize>> {
    Seq::new(n as nat, |v: int| neighbors(edges, v))
}

/// A graph that fails the planarity tests.
#[derive(Debug)]
pub struct NotPlanar;

/// The layers of a planar drawing: the nodes grouped by their distance from the smallest node
/// of their connected part, in increasing order within a group. Fails when the undirected
/// graph between the named nodes fails a planarity test.
pub fn planar_layers(ids: &Vec<String>, edges: &Vec<(String, String)>) -> (result: Result<Vec<Vec<usize>>, NotPlanar>)
    requires
        ids.len() < usize::MAX,
    ensures
        ({
            let es = distinct_undirected(resolved_edges(ids.deep_view(), edges.deep_view()));
            let n = ids.len() as int;
            &&& has_k5(n, es) ==> result is Err
            &&& match result {
                Err(_) => n > 0 && !planarity_guards_hold(n, es),
                Ok(groups) => (n == 0 && groups.len() == 0) || (n > 0 && planarity_guards_hold(n, es)
                    && exists|levels: Seq<usize>|
                    levels.len() == n && (forall|v: int|
                        0 <= v < n ==> level_from_first_source(
                            neighbor_lists(es, n),
                            v,
                            #[trigger] levels[v] as nat,
                        )) && groups.len() == max_level(levels) + 1 && forall|d: int|
                        0 <= d < groups.len() ==> #[trigger] groups@[d]@ == with_level(levels, d)),
            }
        }),
{
    let n = ids.len();
    proof {
        let es = distinct_undirected(resolved_edges(ids.deep_view(), edges.deep_view()));
        if has_k5(n as int, es) {
            lemma_k5_fails_guards(n as int, es);
        }
    }
    if n == 0 {
        return Ok(Vec::new());
    }
    let pairs = indexed_edges(ids, edges);
    if !passes_planarity_guards(n, pairs.as_slice()) {
        return Err(NotPlanar);
    }
    let adj = adjacency(n, pairs.as_slice());
    proof {
        assert forall|v: int, m: int| 0 <= v < n && 0 <= m < adj.deep_view()[v].len() implies #[trigger] adj.deep_view()[v][m] < n by {
            lemma_neighbors_below(pairs@, v, n as int);
        }
        assert(adj.deep_view() =~= neighbor_lists(pairs@, n as int));
    }
    let lists = adj.as_slice();
    assert(lists.deep_view() =~= adj.deep_view());
    let levels = graph_levels(lists);
    proof {
        assert forall|i: int| 0 <= i < levels@.len() implies levels@[i] < usize::MAX by {
            assert(levels@[i] < levels.len());
        }
    }
    let groups = level_groups(levels.as_slice());
    Ok(groups)
}

} // verus!

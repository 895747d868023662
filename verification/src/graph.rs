use vstd::prelude::*;
use vstd::set_lib::FiniteRange;

verus! {

/// The index of the last node whose id is `id`; a later duplicate id shadows an earlier one.
pub open spec fn last_index_of(ids: Seq<Seq<char>>, id: Seq<char>) -> Option<int>
    decreases ids.len(),
{
    if ids.len() == 0 {
        None
    } else if ids.last() == id {
        Some(ids.len() - 1)
    } else {
        last_index_of(ids.drop_last(), id)
    }
}

/// What `last_index_of` means, stated without recursion.
pub(crate) proof fn lemma_last_index_of(ids: Seq<Seq<char>>, id: Seq<char>)
    ensures
        match last_index_of(ids, id) {
            Some(i) => 0 <= i < ids.len() && ids[i] == id && forall|j: int|
                i < j < ids.len() ==> ids[j] != id,
            None => forall|j: int| 0 <= j < ids.len() ==> ids[j] != id,
        },
    decreases ids.len(),
{
    if ids.len() > 0 && ids.last() != id {
        lemma_last_index_of(ids.drop_last(), id);
        assert forall|j: int| 0 <= j < ids.len() - 1 implies ids.drop_last()[j] == ids[j] by {}
    }
}

/// Looks up the position of the node called `id`, as a map from ids to positions
/// built over the whole list would: the last node with that id wins.
pub fn index_of(ids: &Vec<String>, id: &String) -> (found: Option<usize>)
    ensures
        match found {
            Some(i) => last_index_of(ids.deep_view(), id@) == Some(i as int),
            None => last_index_of(ids.deep_view(), id@) is None,
        },
{
    let ghost all = ids.deep_view();
    let mut i = ids.len();
    assert(all.take(i as int) =~= all);
    while i > 0
        invariant
            i <= ids.len(),
            all == ids.deep_view(),
            last_index_of(all, id@) == last_index_of(all.take(i as int), id@),
        decreases i,
    {
        let ghost prefix = all.take(i as int);
        assert(prefix.last() == ids[i - 1]@);
        if ids[i - 1] == *id {
            return Some(i - 1);
        }
        assert(prefix.drop_last() =~= all.take(i - 1));
        i = i - 1;
    }
    assert(all.take(0) =~= Seq::<Seq<char>>::empty());
    None
}

/// The edges whose two endpoints name known nodes, as pairs of node positions, in input order.
pub open spec fn resolved_edges(ids: Seq<Seq<char>>, edges: Seq<(Seq<char>, Seq<char>)>) -> Seq<
    (usize, usize),
>
    decreases edges.len(),
{
    if edges.len() == 0 {
        Seq::empty()
    } else {
        let prev = resolved_edges(ids, edges.drop_last());
        match (last_index_of(ids, edges.last().0), last_index_of(ids, edges.last().1)) {
            (Some(s), Some(t)) => prev.push((s as usize, t as usize)),
            _ => prev,
        }
    }
}

/// Every endpoint of every edge is a position below `n`.
pub open spec fn endpoints_below(edges: Seq<(usize, usize)>, n: int) -> bool {
    forall|i: int| 0 <= i < edges.len() ==> edges[i].0 < n && edges[i].1 < n
}

proof fn lemma_resolved_edges_below(ids: Seq<Seq<char>>, edges: Seq<(Seq<char>, Seq<char>)>)
    ensures
        endpoints_below(resolved_edges(ids, edges), ids.len() as int),
    decreases edges.len(),
{
    if edges.len() > 0 {
        lemma_resolved_edges_below(ids, edges.drop_last());
        lemma_last_index_of(ids, edges.last().0);
        lemma_last_index_of(ids, edges.last().1);
    }
}

/// Turns edges given by node ids into edges given by node positions, dropping every edge
/// with an endpoint that names no node.
pub fn resolve_edges(ids: &Vec<String>, edges: &Vec<(String, String)>) -> (pairs: Vec<(usize, usize)>)
    ensures
        pairs@ == resolved_edges(ids.deep_view(), edges.deep_view()),
        endpoints_below(pairs@, ids.len() as int),
{
    let ghost all = edges.deep_view();
    let mut pairs: Vec<(usize, usize)> = Vec::new();
    let mut i: usize = 0;
    while i < edges.len()
        invariant
            i <= edges.len(),
            all == edges.deep_view(),
            pairs@ == resolved_edges(ids.deep_view(), all.take(i as int)),
        decreases edges.len() - i,
    {
        let ghost prefix = all.take(i + 1);
        assert(prefix.drop_last() =~= all.take(i as int));
        assert(prefix.last() == (edges[i as int].0@, edges[i as int].1@));
        let source = index_of(ids, &edges[i].0);
        let target = index_of(ids, &edges[i].1);
        match (source, target) {
            (Some(s), Some(t)) => {
                pairs.push((s, t));
            },
            _ => {},
        }
        i = i + 1;
    }
    assert(all.take(edges.len() as int) =~= all);
    proof {
        lemma_resolved_edges_below(ids.deep_view(), all);
    }
    pairs
}

/// The neighbours of `v`, in the order in which the edges list them: each edge `(s, t)`
/// contributes `t` to the list of `s` and `s` to the list of `t`.
pub open spec fn neighbors(edges: Seq<(usize, usize)>, v: int) -> Seq<usize>
    decreases edges.len(),
{
    if edges.len() == 0 {
        Seq::empty()
    } else {
        let e = edges.last();
        let prev = neighbors(edges.drop_last(), v);
        let with_target = if e.0 == v {
            prev.push(e.1)
        } else {
            prev
        };
        if e.1 == v {
            with_target.push(e.0)
        } else {
            with_target
        }
    }
}

/// `u` and `w` are joined by some edge, in either direction.
pub open spec fn linked(edges: Seq<(usize, usize)>, u: int, w: int) -> bool {
    exists|i: int|
        0 <= i < edges.len() && ((edges[i].0 == u && edges[i].1 == w) || (edges[i].0 == w
            && edges[i].1 == u))
}

/// The lists of every node, one list per node position.
pub open spec fn is_adjacency_of(adj: Seq<Seq<usize>>, n: int, edges: Seq<(usize, usize)>) -> bool {
    &&& adj.len() == n
    &&& forall|v: int| 0 <= v < n ==> #[trigger] adj[v] == neighbors(edges, v)
}

/// Builds, for each of `node_count` nodes, the list of its neighbours along `edges`.
pub fn adjacency(node_count: usize, edges: &[(usize, usize)]) -> (adj: Vec<Vec<usize>>)
    requires
        endpoints_below(edges@, node_count as int),
    ensures
        is_adjacency_of(adj.deep_view(), node_count as int, edges@),
{
    let mut adj: Vec<Vec<usize>> = Vec::new();
    let mut v: usize = 0;
    while v < node_count
        invariant
            v <= node_count,
            adj.len() == v,
            forall|u: int| 0 <= u < v ==> #[trigger] adj[u]@ == Seq::<usize>::empty(),
        decreases node_count - v,
    {
        adj.push(Vec::new());
        v = v + 1;
    }
    let mut i: usize = 0;
    while i < edges.len()
        invariant
            i <= edges.len(),
            endpoints_below(edges@, node_count as int),
            adj.len() == node_count,
            forall|u: int|
                0 <= u < node_count ==> #[trigger] adj[u]@ == neighbors(edges@.take(i as int), u),
        decreases edges.len() - i,
    {
        let (s, t) = edges[i];
        assert(edges@.take(i + 1).drop_last() =~= edges@.take(i as int));
        let mut row = adj[s].clone();
        assert(row@ =~= adj[s as int]@);
        row.push(t);
        adj.set(s, row);
        let mut row = adj[t].clone();
        assert(row@ =~= adj[t as int]@);
        row.push(s);
        adj.set(t, row);
        i = i + 1;
    }
    assert(edges@.take(edges.len() as int) =~= edges@);
    assert forall|v: int| 0 <= v < node_count implies #[trigger] adj.deep_view()[v] == neighbors(
        edges@,
        v,
    ) by {
        assert(adj.deep_view()[v] == adj[v]@);
    }
    adj
}

/// A node listed among the neighbours of `v` is joined to `v` by an edge, and back.
pub(crate) proof fn lemma_neighbors_contains(edges: Seq<(usize, usize)>, v: int, w: usize)
    ensures
        neighbors(edges, v).contains(w) <==> linked(edges, v, w as int),
    decreases edges.len(),
{
    broadcast use vstd::seq_lib::lemma_seq_contains_after_push;

    if edges.len() > 0 {
        let prev = edges.drop_last();
        lemma_neighbors_contains(prev, v, w);
        if linked(prev, v, w as int) {
            let i = choose|i: int|
                0 <= i < prev.len() && ((prev[i].0 == v && prev[i].1 == w) || (prev[i].0 == w
                    && prev[i].1 == v));
            assert(edges[i] == prev[i]);
        }
        if linked(edges, v, w as int) && !linked(prev, v, w as int) {
            let i = choose|i: int|
                0 <= i < edges.len() && ((edges[i].0 == v && edges[i].1 == w) || (edges[i].0 == w
                    && edges[i].1 == v));
            if i < prev.len() {
                assert(prev[i] == edges[i]);
            }
        }
        let last = edges.len() - 1;
        assert(edges.last() == edges[last]);
    }
}

/// Every neighbour of a node is a node position below `n`.
pub(crate) proof fn lemma_neighbors_below(edges: Seq<(usize, usize)>, v: int, n: int)
    requires
        endpoints_below(edges, n),
    ensures
        forall|k: int| 0 <= k < neighbors(edges, v).len() ==> neighbors(edges, v)[k] < n,
    decreases edges.len(),
{
    if edges.len() > 0 {
        let prev = edges.drop_last();
        assert(endpoints_below(prev, n)) by {
            assert forall|i: int| 0 <= i < prev.len() implies prev[i].0 < n && prev[i].1 < n by {
                assert(prev[i] == edges[i]);
            }
        }
        lemma_neighbors_below(prev, v, n);
        let e = edges[edges.len() - 1];
        assert(edges.last() == e);
        let p = neighbors(prev, v);
        let wt = if e.0 == v { p.push(e.1) } else { p };
        assert forall|k: int| 0 <= k < wt.len() implies wt[k] < n by {
            if k < p.len() {
                assert(wt[k] == p[k]);
            }
        }
        let full = neighbors(edges, v);
        assert forall|k: int| 0 <= k < full.len() implies full[k] < n by {
            if k < wt.len() {
                assert(full[k] == wt[k]);
            }
        }
    }
}

/// A list of distinct positions below `n` holds at most `n` of them.
pub(crate) proof fn lemma_distinct_below_len(s: Seq<usize>, n: usize)
    requires
        s.no_duplicates(),
        forall|i: int| 0 <= i < s.len() ==> s[i] < n,
    ensures
        s.len() <= n,
{
    s.unique_seq_to_set();
    let range = <usize as FiniteRange>::range_set(0, n);
    <usize as FiniteRange>::range_properties(0, n);
    assert(s.to_set().subset_of(range)) by {
        assert forall|x: usize| s.to_set().contains(x) implies range.contains(x) by {
            let i = choose|i: int| 0 <= i < s.len() && s[i] == x;
        }
    }
    vstd::set_lib::lemma_len_subset(s.to_set(), range);
}

/// Adjacency along undirected edges is symmetric: `w` is among the neighbours of `v` exactly
/// when `v` is among the neighbours of `w`.
pub proof fn lemma_adjacency_symmetric(adj: Seq<Seq<usize>>, n: int, edges: Seq<(usize, usize)>, v: usize, w: usize)
    requires
        is_adjacency_of(adj, n, edges),
        v < n,
        w < n,
    ensures
        adj[v as int].contains(w) <==> adj[w as int].contains(v),
{
    lemma_neighbors_contains(edges, v as int, w);
    lemma_neighbors_contains(edges, w as int, v);
    if linked(edges, v as int, w as int) {
        let i = choose|i: int|
            0 <= i < edges.len() && ((edges[i].0 == v && edges[i].1 == w) || (edges[i].0 == w
                && edges[i].1 == v));
        assert(linked(edges, w as int, v as int));
    }
    if linked(edges, w as int, v as int) {
        let i = choose|i: int|
            0 <= i < edges.len() && ((edges[i].0 == w && edges[i].1 == v) || (edges[i].0 == v
                && edges[i].1 == w));
        assert(linked(edges, v as int, w as int));
    }
}

/// The positions below `k`, in increasing order.
pub open spec fn positions(k: int) -> Seq<usize> {
    Seq::new(k as nat, |i: int| i as usize)
}

/// Keeping the positions below `k` that satisfy `pred` keeps each of them once and nothing else.
pub(crate) proof fn lemma_positions_filter(k: int, pred: spec_fn(usize) -> bool)
    requires
        0 <= k <= usize::MAX,
    ensures
        forall|v: usize| #[trigger] positions(k).filter(pred).contains(v) <==> (v < k && pred(v)),
        positions(k).filter(pred).no_duplicates(),
    decreases k,
{
    broadcast use vstd::seq::Seq::lemma_filter_push;
    broadcast use vstd::seq_lib::lemma_seq_contains_after_push;

    let all = positions(k);
    if k == 0 {
        assert(all.filter(pred) =~= Seq::<usize>::empty());
    } else {
        let prev = positions(k - 1);
        lemma_positions_filter(k - 1, pred);
        assert(all =~= prev.push((k - 1) as usize));
        let pf = prev.filter(pred);
        if pred((k - 1) as usize) {
            assert(all.filter(pred) == pf.push((k - 1) as usize));
            assert(!pf.contains((k - 1) as usize));
            let f = pf.push((k - 1) as usize);
            assert forall|a: int, b: int| 0 <= a < f.len() && 0 <= b < f.len() && a != b implies f[a] != f[b] by {
                if a < pf.len() && b < pf.len() {
                } else if a < pf.len() {
                    assert(pf.contains(f[a]));
                } else {
                    assert(pf.contains(f[b]));
                }
            }
        } else {
            assert(all.filter(pred) == pf);
        }
    }
}

/// Filtering keeps exactly the members that satisfy the predicate.
pub(crate) proof fn lemma_filter_member<A>(s: Seq<A>, pred: spec_fn(A) -> bool, x: A)
    ensures
        s.filter(pred).contains(x) <==> (s.contains(x) && pred(x)),
{
    broadcast use vstd::seq_lib::group_filter_ensures;

    if s.filter(pred).contains(x) {
        s.lemma_filter_contains_rev(pred, x);
        let i = choose|i: int| 0 <= i < s.filter(pred).len() && s.filter(pred)[i] == x;
        assert(pred(s.filter(pred)[i]));
    }
    if s.contains(x) && pred(x) {
        let i = choose|i: int| 0 <= i < s.len() && s[i] == x;
        s.lemma_filter_contains(pred, i);
    }
}

/// Filtering a sequence without repeats gives a sequence without repeats.
pub(crate) proof fn lemma_filter_distinct<A>(s: Seq<A>, pred: spec_fn(A) -> bool)
    requires
        s.no_duplicates(),
    ensures
        s.filter(pred).no_duplicates(),
    decreases s.len(),
{
    broadcast use vstd::seq::Seq::lemma_filter_push;

    if s.len() > 0 {
        let prev = s.drop_last();
        let x = s.last();
        assert(s == prev.push(x));
        assert(prev.no_duplicates()) by {
            assert forall|a: int, b: int| 0 <= a < prev.len() && 0 <= b < prev.len() && a != b implies prev[a] != prev[b] by {
                assert(prev[a] == s[a] && prev[b] == s[b]);
            }
        }
        lemma_filter_distinct(prev, pred);
        if pred(x) {
            let pf = prev.filter(pred);
            lemma_filter_member(prev, pred, x);
            assert(!prev.contains(x)) by {
                if prev.contains(x) {
                    let a = choose|a: int| 0 <= a < prev.len() && prev[a] == x;
                    assert(s[a] == s[s.len() - 1]);
                }
            }
            let f = pf.push(x);
            assert forall|a: int, b: int| 0 <= a < f.len() && 0 <= b < f.len() && a != b implies f[a] != f[b] by {
                if a < pf.len() && b < pf.len() {
                } else if a < pf.len() {
                    assert(pf.contains(f[a]));
                } else {
                    assert(pf.contains(f[b]));
                }
            }
        }
    }
}

} // verus!

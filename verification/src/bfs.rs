use vstd::prelude::*;

use crate::search::{marked, search_queue};

use crate::graph::{adjacency, lemma_filter_distinct, lemma_filter_member, lemma_positions_filter, positions, endpoints_below, is_adjacency_of, lemma_neighbors_below, resolve_edges, resolved_edges};
use crate::traversal::{
    breadth_first, closed, is_distance, lemma_distance_unique, lists_below, reachable, search_done,
    unseen,
};

verus! {

/// The neighbour lists of the nodes named by `ids`, along the edges whose two endpoints name
/// known nodes.
pub fn build_adjacency(ids: &Vec<String>, edges: &Vec<(String, String)>) -> (adj: Vec<Vec<usize>>)
    ensures
        is_adjacency_of(
            adj.deep_view(),
            ids.len() as int,
            resolved_edges(ids.deep_view(), edges.deep_view()),
        ),
        lists_below(adj.deep_view(), ids.len() as int),
{
    let pairs = resolve_edges(ids, edges);
    let adj = adjacency(ids.len(), pairs.as_slice());
    proof {
        assert forall|v: int, m: int|
            0 <= v < ids.len() && 0 <= m < adj.deep_view()[v].len() implies #[trigger] adj.deep_view()[v][m]
            < ids.len() by {
            lemma_neighbors_below(pairs@, v, ids.len() as int);
        }
    }
    adj
}

/// The order in which a breadth-first search from `s` over the lists of `n` nodes reaches them:
/// `s` first, then the nodes in the order they first appear on the lists of the nodes reached
/// before them, each list taken in turn.
pub open spec fn bfs_order(adj: Seq<Seq<usize>>, n: int, s: usize) -> Seq<usize> {
    search_queue(adj, only_marked(n, s), seq![s], 0, (n + 1) as nat)
}

/// Marks for `n` nodes where only `s` is marked.
pub open spec fn only_marked(n: int, s: usize) -> Seq<bool> {
    Seq::new(n as nat, |v: int| v == s)
}

/// The fewest arcs that lead from `s` to `v`, where `v` can be reached.
pub open spec fn distance(adj: Seq<Seq<usize>>, s: int, v: int) -> nat {
    choose|d: nat| is_distance(adj, s, v, d)
}

/// `order` lists each of the `n` nodes that `s` reaches exactly once, `s` first, in order of
/// nondecreasing distance from `s`.
pub open spec fn is_search_order(adj: Seq<Seq<usize>>, n: int, s: int, order: Seq<usize>) -> bool {
    &&& order.len() >= 1
    &&& order[0] == s
    &&& order.no_duplicates()
    &&& forall|i: int| 0 <= i < order.len() ==> #[trigger] order[i] < n && reachable(adj, s, order[i] as int)
    &&& forall|v: int| 0 <= v < n && reachable(adj, s, v) ==> #[trigger] order.contains(v as usize)
    &&& forall|i: int, j: int|
        0 <= i <= j < order.len() ==> distance(adj, s, #[trigger] order[i] as int) <= distance(
            adj,
            s,
            #[trigger] order[j] as int,
        )
}

/// The nodes below `n` that `s` does not reach, in increasing order.
pub open spec fn unreached_nodes(adj: Seq<Seq<usize>>, n: int, s: int) -> Seq<usize> {
    positions(n).filter(unreached_from(adj, s))
}

/// Whether a node cannot be reached from `s`.
pub open spec fn unreached_from(adj: Seq<Seq<usize>>, s: int) -> spec_fn(usize) -> bool {
    |v: usize| !reachable(adj, s, v as int)
}

/// Whether a node lies at distance `d` from `s`.
pub open spec fn lies_at(adj: Seq<Seq<usize>>, s: int, d: nat) -> spec_fn(usize) -> bool {
    |v: usize| distance(adj, s, v as int) == d
}

/// The nodes of `order` at distance `d` from `s`, in the order of `order`.
pub open spec fn at_distance(adj: Seq<Seq<usize>>, s: int, order: Seq<usize>, d: nat) -> Seq<usize> {
    order.filter(lies_at(adj, s, d))
}

/// The layers of a breadth-first search: layer `d` holds the nodes at distance `d` from `s`
/// in the order the search reached them, and the first layer also holds, after `s`, every
/// node that `s` does not reach, in increasing order.
pub open spec fn is_bfs_layering(
    adj: Seq<Seq<usize>>,
    n: int,
    s: int,
    order: Seq<usize>,
    layers: Seq<Seq<usize>>,
) -> bool {
    &&& is_search_order(adj, n, s, order)
    &&& layers.len() >= 1
    &&& forall|i: int| 0 <= i < order.len() ==> distance(adj, s, #[trigger] order[i] as int) < layers.len()
    &&& exists|i: int| 0 <= i < order.len() && distance(adj, s, #[trigger] order[i] as int) == layers.len() - 1
    &&& layers[0] == at_distance(adj, s, order, 0) + unreached_nodes(adj, n, s)
    &&& forall|d: int| 1 <= d < layers.len() ==> #[trigger] layers[d] == at_distance(adj, s, order, d as nat)
}

} // verus!

verus! {

/// `distance` names the one distance there is.
proof fn lemma_distance_is(adj: Seq<Seq<usize>>, s: int, v: int, d: nat)
    requires
        is_distance(adj, s, v, d),
    ensures
        distance(adj, s, v) == d,
{
    let e = distance(adj, s, v);
    assert(is_distance(adj, s, v, e));
    lemma_distance_unique(adj, s, v, d, e);
}

/// The nodes of `order` whose level is `d`, in the order of `order`.
fn nodes_at_level(
    order: &Vec<usize>,
    levels: &Vec<usize>,
    d: usize,
    Ghost(adj): Ghost<Seq<Seq<usize>>>,
    Ghost(s): Ghost<int>,
) -> (layer: Vec<usize>)
    requires
        forall|i: int|
            0 <= i < order@.len() ==> #[trigger] order@[i] < levels.len() && levels@[order@[i] as int]
                != unseen() && distance(adj, s, order@[i] as int) == levels@[order@[i] as int] as nat,
    ensures
        layer@ == at_distance(adj, s, order@, d as nat),
{
    let ghost ord = order@;
    let mut layer: Vec<usize> = Vec::new();
    let mut i: usize = 0;
    while i < order.len()
        invariant
            order@ == ord,
            i <= ord.len(),
            forall|i: int|
                0 <= i < ord.len() ==> #[trigger] ord[i] < levels.len() && levels@[ord[i] as int]
                    != unseen() && distance(adj, s, ord[i] as int) == levels@[ord[i] as int] as nat,
            layer@ == at_distance(adj, s, ord.take(i as int), d as nat),
        decreases ord.len() - i,
    {
        let node = order[i];
        proof {
            broadcast use vstd::seq::Seq::lemma_filter_push;

            assert(ord.take(i + 1) =~= ord.take(i as int).push(node));
        }
        if levels[node] == d {
            layer.push(node);
        }
        i = i + 1;
    }
    assert(ord.take(ord.len() as int) =~= ord);
    layer
}

/// Appends to `layer`, in increasing order, the nodes that have no level.
fn append_unreached(
    layer: &mut Vec<usize>,
    levels: &Vec<usize>,
    Ghost(adj): Ghost<Seq<Seq<usize>>>,
    Ghost(s): Ghost<int>,
)
    requires
        forall|v: int|
            0 <= v < levels.len() ==> ((#[trigger] levels@[v]) != unseen() <==> reachable(adj, s, v)),
    ensures
        final(layer)@ == old(layer)@ + unreached_nodes(adj, levels.len() as int, s),
{
    let ghost start = layer@;
    let n = levels.len();
    let mut v: usize = 0;
    assert(unreached_nodes(adj, 0, s) =~= Seq::<usize>::empty());
    assert(layer@ =~= start + unreached_nodes(adj, 0, s));
    while v < n
        invariant
            n == levels.len(),
            v <= n,
            forall|v: int|
                0 <= v < n ==> ((#[trigger] levels@[v]) != unseen() <==> reachable(adj, s, v)),
            layer@ == start + unreached_nodes(adj, v as int, s),
        decreases n - v,
    {
        proof {
            broadcast use vstd::seq::Seq::lemma_filter_push;

            assert(positions(v + 1) =~= positions(v as int).push(v));
        }
        if levels[v] == usize::MAX {
            layer.push(v);
        }
        v = v + 1;
    }
}

/// Searches breadth first from `start` and groups the nodes into layers by their distance
/// from `start`, in the order the search reached them; the nodes that `start` does not reach
/// join the first layer, after `start`, in increasing order.
pub fn bfs_layers(start: usize, adjacency: &[Vec<usize>], node_count: usize) -> (layers: Vec<Vec<usize>>)
    requires
        adjacency.len() == node_count,
        node_count < usize::MAX,
        start < node_count,
        lists_below(adjacency.deep_view(), node_count as int),
    ensures
        is_bfs_layering(
            adjacency.deep_view(),
            node_count as int,
            start as int,
            bfs_order(adjacency.deep_view(), node_count as int, start),
            layers.deep_view(),
        ),
{
    let n = node_count;
    let ghost adj = adjacency.deep_view();
    let mut levels: Vec<usize> = Vec::new();
    while levels.len() < n
        invariant
            levels.len() <= n,
            forall|v: int| 0 <= v < levels.len() ==> levels@[v] == unseen(),
        decreases n - levels.len(),
    {
        levels.push(usize::MAX);
    }
    let ghost fresh = levels@;
    assert(closed(adj, fresh));
    let mut order: Vec<usize> = Vec::new();
    breadth_first(adjacency, start, &mut levels, &mut order);
    let ghost ord = order@;
    let ghost s = start as int;
    proof {
        lemma_search_order(adj, n as int, fresh, levels@, ord, s);
        assert(marked(fresh).update(s, true) =~= only_marked(n as int, start));
        assert(ord.subrange(0, ord.len() as int) =~= ord);
        assert(ord == bfs_order(adj, n as int, start));
    }
    let last = order[order.len() - 1];
    let max_level = levels[last];
    let mut layers: Vec<Vec<usize>> = Vec::new();
    let mut d: usize = 0;
    while d <= max_level
        invariant
            n == node_count,
            levels.len() == n,
            order@ == ord,
            adj == adjacency.deep_view(),
            s == start,
            max_level < usize::MAX,
            d <= max_level + 1,
            layers.len() == d,
            forall|v: int| 0 <= v < n ==> ((#[trigger] levels@[v]) != unseen() <==> reachable(adj, s, v)),
            forall|i: int|
                0 <= i < ord.len() ==> #[trigger] ord[i] < levels.len() && levels@[ord[i] as int]
                    != unseen() && distance(adj, s, ord[i] as int) == levels@[ord[i] as int] as nat,
            d > 0 ==> layers@[0]@ == at_distance(adj, s, ord, 0) + unreached_nodes(adj, n as int, s),
            forall|e: int| 1 <= e < d ==> #[trigger] layers@[e]@ == at_distance(adj, s, ord, e as nat),
        decreases max_level + 1 - d,
    {
        let mut layer = nodes_at_level(&order, &levels, d, Ghost(adj), Ghost(s));
        if d == 0 {
            append_unreached(&mut layer, &levels, Ghost(adj), Ghost(s));
        }
        let ghost prev = layers@;
        let ghost lv = layer@;
        layers.push(layer);
        proof {
            assert(layers@ == prev.push(layer));
            assert forall|e: int| 0 <= e < d implies #[trigger] layers@[e] == prev[e] by {}
        }
        d = d + 1;
    }
    proof {
        let i = ord.len() - 1;
        assert(distance(adj, s, ord[i] as int) == layers.len() - 1);
        assert forall|e: int| 0 <= e < layers.len() implies #[trigger] layers.deep_view()[e] == layers@[e]@ by {
            assert(layers.deep_view()[e] =~= layers@[e]@);
        }
        assert(is_bfs_layering(adj, n as int, s, ord, layers.deep_view()));
    }
    layers
}

/// A finished search from `s` over nodes that had no level gives an order of search.
proof fn lemma_search_order(
    adj: Seq<Seq<usize>>,
    n: int,
    fresh: Seq<usize>,
    levels: Seq<usize>,
    ord: Seq<usize>,
    s: int,
)
    requires
        fresh.len() == n,
        forall|v: int| 0 <= v < n ==> fresh[v] == unseen(),
        search_done(n, adj, fresh, levels, ord, s, 0),
    ensures
        is_search_order(adj, n, s, ord),
        forall|v: int| 0 <= v < n ==> ((#[trigger] levels[v]) != unseen() <==> reachable(adj, s, v)),
        forall|i: int|
            0 <= i < ord.len() ==> #[trigger] ord[i] < levels.len() && levels[ord[i] as int]
                != unseen() && distance(adj, s, ord[i] as int) == levels[ord[i] as int] as nat,
        forall|i: int, j: int|
            0 <= i <= j < ord.len() ==> levels[#[trigger] ord[i] as int] <= levels[#[trigger] ord[j] as int],
{
    assert forall|v: int| 0 <= v < n && (#[trigger] levels[v]) != unseen() implies distance(adj, s, v)
        == levels[v] as nat by {
        lemma_distance_is(adj, s, v, levels[v] as nat);
    }
    assert forall|v: int| 0 <= v < n && reachable(adj, s, v) implies #[trigger] ord.contains(v as usize) by {
        assert(levels[v] != unseen());
        let i = choose|i: int| 0 <= i < ord.len() && ord[i] == v;
    }
    assert forall|i: int, j: int| 0 <= i <= j < ord.len() implies distance(adj, s, #[trigger] ord[i] as int) <= distance(
        adj, s, #[trigger] ord[j] as int) by {
        assert(levels[ord[i] as int] <= levels[ord[j] as int]);
        assert(levels[ord[i] as int] != unseen());
        assert(levels[ord[j] as int] != unseen());
    }
}

/// Breadth-first layers place every node in exactly one layer, which exists: a node that the
/// start reaches in the layer of its distance, any other node in the first layer; and no layer
/// lists a node twice.
pub proof fn lemma_bfs_layers_partition(
    adj: Seq<Seq<usize>>,
    n: int,
    s: int,
    order: Seq<usize>,
    layers: Seq<Seq<usize>>,
    v: int,
    d: int,
)
    requires
        is_bfs_layering(adj, n, s, order, layers),
        n <= usize::MAX,
        0 <= v < n,
        0 <= d < layers.len(),
    ensures
        reachable(adj, s, v) ==> distance(adj, s, v) < layers.len(),
        layers[d].contains(v as usize) <==> d == (if reachable(adj, s, v) {
            distance(adj, s, v) as int
        } else {
            0
        }),
        layers[d].no_duplicates(),
{
    broadcast use vstd::seq_lib::lemma_seq_concat_contains_all_elements;

    let x = v as usize;
    assert(order.contains(x) <==> reachable(adj, s, v)) by {
        if order.contains(x) {
            let i = choose|i: int| 0 <= i < order.len() && order[i] == x;
            assert(reachable(adj, s, order[i] as int));
        }
    }
    if reachable(adj, s, v) {
        let i = choose|i: int| 0 <= i < order.len() && order[i] == x;
        assert(distance(adj, s, order[i] as int) < layers.len());
    }
    let dd: nat = if d >= 0 { d as nat } else { 0 };
    lemma_filter_member(order, lies_at(adj, s, dd), x);
    lemma_filter_distinct(order, lies_at(adj, s, dd));
    lemma_positions_filter(n, unreached_from(adj, s));
    if d == 0 {
        let near = at_distance(adj, s, order, 0);
        let far = unreached_nodes(adj, n, s);
        assert forall|a: int, b: int| 0 <= a < near.len() && 0 <= b < far.len() implies near[a] != far[b] by {
            lemma_filter_member(order, lies_at(adj, s, 0), near[a]);
            assert(near.contains(near[a]));
            assert(far.contains(far[b]));
            let j = choose|j: int| 0 <= j < order.len() && order[j] == near[a];
            assert(reachable(adj, s, order[j] as int));
        }
        vstd::seq_lib::lemma_no_dup_in_concat(near, far);
    }
}

} // verus!

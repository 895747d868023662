use vstd::prelude::*;

use crate::graph::{index_of, last_index_of};

verus! {

/// How many edge endpoints name node `v`: each edge counts once for its source and once for its
/// target, whichever of them names a known node.
pub open spec fn endpoint_count(ids: Seq<Seq<char>>, edges: Seq<(Seq<char>, Seq<char>)>, v: int) -> nat
    decreases edges.len(),
{
    if edges.len() == 0 {
        0
    } else {
        let e = edges.last();
        endpoint_count(ids, edges.drop_last(), v) + (if last_index_of(ids, e.0) == Some(v) {
            1nat
        } else {
            0nat
        }) + (if last_index_of(ids, e.1) == Some(v) {
            1nat
        } else {
            0nat
        })
    }
}

proof fn lemma_endpoint_count_bound(ids: Seq<Seq<char>>, edges: Seq<(Seq<char>, Seq<char>)>, v: int)
    ensures
        endpoint_count(ids, edges, v) <= 2 * edges.len(),
    decreases edges.len(),
{
    if edges.len() > 0 {
        lemma_endpoint_count_bound(ids, edges.drop_last(), v);
    }
}

/// The degree of each node named by `ids`: the number of edge endpoints naming it.
pub fn degrees(ids: &Vec<String>, edges: &Vec<(String, String)>) -> (degree: Vec<usize>)
    requires
        edges.len() <= usize::MAX / 2,
    ensures
        degree.len() == ids.len(),
        forall|v: int|
            0 <= v < ids.len() ==> #[trigger] degree@[v] == endpoint_count(
                ids.deep_view(),
                edges.deep_view(),
                v,
            ),
{
    let ghost all = edges.deep_view();
    let ghost names = ids.deep_view();
    let mut degree: Vec<usize> = Vec::new();
    while degree.len() < ids.len()
        invariant
            degree.len() <= ids.len(),
            forall|v: int| 0 <= v < degree.len() ==> #[trigger] degree@[v] == 0,
        decreases ids.len() - degree.len(),
    {
        degree.push(0);
    }
    let mut i: usize = 0;
    while i < edges.len()
        invariant
            i <= edges.len(),
            edges.len() <= usize::MAX / 2,
            all == edges.deep_view(),
            names == ids.deep_view(),
            degree.len() == ids.len(),
            forall|v: int|
                0 <= v < ids.len() ==> #[trigger] degree@[v] == endpoint_count(names, all.take(i as int), v),
        decreases edges.len() - i,
    {
        let ghost prefix = all.take(i + 1);
        assert(prefix.drop_last() =~= all.take(i as int));
        assert(prefix.last() == (edges[i as int].0@, edges[i as int].1@));
        proof {
            assert forall|v: int| 0 <= v < ids.len() implies #[trigger] degree@[v] <= 2 * i by {
                lemma_endpoint_count_bound(names, all.take(i as int), v);
            }
            crate::graph::lemma_last_index_of(names, edges[i as int].0@);
            crate::graph::lemma_last_index_of(names, edges[i as int].1@);
        }
        if let Some(source) = index_of(ids, &edges[i].0) {
            degree.set(source, degree[source] + 1);
        }
        if let Some(target) = index_of(ids, &edges[i].1) {
            degree.set(target, degree[target] + 1);
        }
        i = i + 1;
    }
    assert(all.take(edges.len() as int) =~= all);
    degree
}

/// Node `a` comes before node `b` around the circle: it has the higher degree, or the same
/// degree and the smaller position.
pub open spec fn comes_before(degree: Seq<usize>, a: usize, b: usize) -> bool {
    degree[a as int] > degree[b as int] || (degree[a as int] == degree[b as int] && a < b)
}

/// The node positions ordered by decreasing degree, equal degrees in increasing position.
pub fn radial_order(degree: &[usize]) -> (ordered: Vec<usize>)
    ensures
        ordered.len() == degree.len(),
        forall|v: int| 0 <= v < degree.len() ==> #[trigger] ordered@.contains(v as usize),
        forall|i: int, j: int|
            0 <= i < j < ordered.len() ==> comes_before(degree@, #[trigger] ordered@[i], #[trigger] ordered@[j]),
{
    let n = degree.len();
    let mut ordered: Vec<usize> = Vec::new();
    let mut v: usize = 0;
    while v < n
        invariant
            v <= n,
            n == degree.len(),
            ordered.len() == v,
            forall|x: usize| #[trigger] ordered@.contains(x) <==> x < v,
            forall|i: int, j: int|
                0 <= i < j < ordered.len() ==> comes_before(degree@, #[trigger] ordered@[i], #[trigger] ordered@[j]),
        decreases n - v,
    {
        let mut p: usize = 0;
        assert forall|q: int| 0 <= q < ordered.len() implies #[trigger] ordered@[q] < v by {
            assert(ordered@.contains(ordered@[q]));
        }
        while p < ordered.len() && degree[ordered[p]] >= degree[v]
            invariant
                p <= ordered.len(),
                v < n,
                n == degree.len(),
                forall|x: usize| #[trigger] ordered@.contains(x) <==> x < v,
                forall|q: int| 0 <= q < ordered.len() ==> #[trigger] ordered@[q] < v,
                forall|q: int| 0 <= q < p ==> degree@[#[trigger] ordered@[q] as int] >= degree@[v as int],
            decreases ordered.len() - p,
        {
            assert(ordered@.contains(ordered@[p as int]));
            p = p + 1;
        }
        let ghost before = ordered@;
        ordered.insert(p, v);
        proof {
            let now = ordered@;
            assert(now == before.insert(p as int, v));
            assert forall|q: int| 0 <= q < before.len() implies #[trigger] before[q] < v by {
                assert(before.contains(before[q]));
            }
            assert forall|q: int| p <= q < before.len() implies degree@[#[trigger] before[q] as int] < degree@[v as int] by {
                if q > p {
                    assert(comes_before(degree@, before[p as int], before[q]));
                }
            }
            assert forall|i: int, j: int| 0 <= i < j < now.len() implies comes_before(degree@, #[trigger] now[i], #[trigger] now[j]) by {
                if j < p {
                    assert(now[i] == before[i] && now[j] == before[j]);
                } else if j == p {
                    assert(now[i] == before[i]);
                } else if i < p {
                    assert(now[i] == before[i] && now[j] == before[j - 1]);
                    assert(comes_before(degree@, before[i], before[j - 1]));
                } else if i == p {
                    assert(now[j] == before[j - 1]);
                } else {
                    assert(now[i] == before[i - 1] && now[j] == before[j - 1]);
                }
            }
            assert forall|x: usize| #[trigger] now.contains(x) <==> x < v + 1 by {
                if x == v {
                    assert(now[p as int] == v);
                } else if x < v {
                    assert(before.contains(x));
                    let q = choose|q: int| 0 <= q < before.len() && before[q] == x;
                    if q < p {
                        assert(now[q] == x);
                    } else {
                        assert(now[q + 1] == x);
                    }
                }
                if now.contains(x) {
                    let q = choose|q: int| 0 <= q < now.len() && now[q] == x;
                    if q < p {
                        assert(before[q] == x);
                    } else if q > p {
                        assert(before[q - 1] == x);
                    }
                }
            }
        }
        v = v + 1;
    }
    ordered
}

} // verus!

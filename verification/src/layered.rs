use vstd::prelude::*;

use crate::graph::{endpoints_below, lemma_distinct_below_len, resolve_edges, resolved_edges};
use crate::planar::{level_groups, max_level, with_level};

verus! {

/// The targets of the edges that leave `u`, in edge order.
pub open spec fn out_targets(edges: Seq<(usize, usize)>, u: int) -> Seq<usize>
    decreases edges.len(),
{
    if edges.len() == 0 {
        Seq::empty()
    } else {
        let prev = out_targets(edges.drop_last(), u);
        if edges.last().0 == u {
            prev.push(edges.last().1)
        } else {
            prev
        }
    }
}

/// The number of edges into `v` whose source is not yet `done`.
pub open spec fn pending(edges: Seq<(usize, usize)>, done: Seq<bool>, v: int) -> nat
    decreases edges.len(),
{
    if edges.len() == 0 {
        0
    } else {
        let prev = pending(edges.drop_last(), done, v);
        if edges.last().1 == v && !done[edges.last().0 as int] {
            prev + 1
        } else {
            prev
        }
    }
}

/// One more than the largest rank of a `done` node with an edge into `v`, or 0 when there is
/// no such node.
pub open spec fn rank_from(edges: Seq<(usize, usize)>, done: Seq<bool>, ranks: Seq<usize>, v: int) -> int
    decreases edges.len(),
{
    if edges.len() == 0 {
        0
    } else {
        let prev = rank_from(edges.drop_last(), done, ranks, v);
        let e = edges.last();
        if e.1 == v && done[e.0 as int] && ranks[e.0 as int] + 1 > prev {
            ranks[e.0 as int] + 1
        } else {
            prev
        }
    }
}

/// How often `t` appears in `s`.
pub open spec fn occurrences(s: Seq<usize>, t: usize) -> nat
    decreases s.len(),
{
    if s.len() == 0 {
        0
    } else {
        occurrences(s.drop_last(), t) + if s.last() == t {
            1nat
        } else {
            0nat
        }
    }
}

/// Marking `u` done removes from the pending count of `t` exactly the edges from `u` to `t`.
proof fn lemma_pending_done(edges: Seq<(usize, usize)>, done: Seq<bool>, u: int, t: int)
    requires
        0 <= u < done.len(),
        !done[u],
        0 <= t <= usize::MAX,
        endpoints_below(edges, done.len() as int),
    ensures
        occurrences(out_targets(edges, u), t as usize) + pending(edges, done.update(u, true), t)
            == pending(edges, done, t),
    decreases edges.len(),
{
    if edges.len() > 0 {
        let prev = edges.drop_last();
        assert(endpoints_below(prev, done.len() as int)) by {
            assert forall|i: int| 0 <= i < prev.len() implies prev[i].0 < done.len() && prev[i].1 < done.len() by {
                assert(prev[i] == edges[i]);
            }
        }
        lemma_pending_done(prev, done, u, t);
        let e = edges.last();
        assert(e == edges[edges.len() - 1]);
        let out_prev = out_targets(prev, u);
        if e.0 == u {
            assert(out_targets(edges, u).drop_last() == out_prev);
        }
    }
}

/// Marking `u` done raises the rank bound of `t` to one more than the rank of `u` exactly when
/// an edge runs from `u` to `t`.
proof fn lemma_rank_done(edges: Seq<(usize, usize)>, done: Seq<bool>, ranks: Seq<usize>, u: int, t: int)
    requires
        0 <= u < done.len(),
        ranks.len() == done.len(),
        !done[u],
        0 <= t <= usize::MAX,
        endpoints_below(edges, done.len() as int),
    ensures
        rank_from(edges, done.update(u, true), ranks, t) == if occurrences(
            out_targets(edges, u),
            t as usize,
        ) > 0 && ranks[u] + 1 > rank_from(edges, done, ranks, t) {
            ranks[u] + 1
        } else {
            rank_from(edges, done, ranks, t)
        },
    decreases edges.len(),
{
    if edges.len() > 0 {
        let prev = edges.drop_last();
        assert(endpoints_below(prev, done.len() as int)) by {
            assert forall|i: int| 0 <= i < prev.len() implies prev[i].0 < done.len() && prev[i].1 < done.len() by {
                assert(prev[i] == edges[i]);
            }
        }
        lemma_rank_done(prev, done, ranks, u, t);
        let e = edges.last();
        assert(e == edges[edges.len() - 1]);
        let out_prev = out_targets(prev, u);
        if e.0 == u {
            assert(out_targets(edges, u).drop_last() == out_prev);
        }
        lemma_rank_from_nonneg(prev, done, ranks, t);
        lemma_rank_from_nonneg(prev, done.update(u, true), ranks, t);
    }
}

/// Rank bounds are never negative.
proof fn lemma_rank_from_nonneg(edges: Seq<(usize, usize)>, done: Seq<bool>, ranks: Seq<usize>, t: int)
    ensures
        rank_from(edges, done, ranks, t) >= 0,
    decreases edges.len(),
{
    if edges.len() > 0 {
        lemma_rank_from_nonneg(edges.drop_last(), done, ranks, t);
    }
}

/// Rank bounds read only the ranks of `done` nodes.
proof fn lemma_rank_from_frame(
    edges: Seq<(usize, usize)>,
    done: Seq<bool>,
    ranks: Seq<usize>,
    ranks2: Seq<usize>,
    t: int,
)
    requires
        endpoints_below(edges, done.len() as int),
        forall|s: int| 0 <= s < done.len() && done[s] ==> ranks[s] == ranks2[s],
    ensures
        rank_from(edges, done, ranks, t) == rank_from(edges, done, ranks2, t),
    decreases edges.len(),
{
    if edges.len() > 0 {
        let prev = edges.drop_last();
        assert(endpoints_below(prev, done.len() as int)) by {
            assert forall|i: int| 0 <= i < prev.len() implies prev[i].0 < done.len() && prev[i].1 < done.len() by {
                assert(prev[i] == edges[i]);
            }
        }
        lemma_rank_from_frame(prev, done, ranks, ranks2, t);
        assert(edges.last() == edges[edges.len() - 1]);
    }
}

} // verus!

verus! {

/// Appending one item counts it once more when it is `t`.
proof fn lemma_occurrences_push(s: Seq<usize>, x: usize, t: usize)
    ensures
        occurrences(s.push(x), t) == occurrences(s, t) + if x == t {
            1nat
        } else {
            0nat
        },
{
    assert(s.push(x).drop_last() == s);
}

/// A prefix holds `t` no more often than the whole.
proof fn lemma_occurrences_prefix(s: Seq<usize>, j: int, t: usize)
    requires
        0 <= j <= s.len(),
    ensures
        occurrences(s.take(j), t) <= occurrences(s, t),
    decreases s.len() - j,
{
    if j < s.len() {
        lemma_occurrences_prefix(s, j + 1, t);
        assert(s.take(j + 1) == s.take(j).push(s[j]));
        lemma_occurrences_push(s.take(j), s[j], t);
    } else {
        assert(s.take(j) == s);
    }
}

/// Marking more nodes done leaves fewer edges pending.
proof fn lemma_pending_monotone(edges: Seq<(usize, usize)>, d1: Seq<bool>, d2: Seq<bool>, v: int)
    requires
        d1.len() == d2.len(),
        endpoints_below(edges, d1.len() as int),
        forall|s: int| 0 <= s < d1.len() && d1[s] ==> d2[s],
    ensures
        pending(edges, d2, v) <= pending(edges, d1, v),
    decreases edges.len(),
{
    if edges.len() > 0 {
        let prev = edges.drop_last();
        assert(endpoints_below(prev, d1.len() as int)) by {
            assert forall|i: int| 0 <= i < prev.len() implies prev[i].0 < d1.len() && prev[i].1 < d1.len() by {
                assert(prev[i] == edges[i]);
            }
        }
        lemma_pending_monotone(prev, d1, d2, v);
        assert(edges.last() == edges[edges.len() - 1]);
    }
}

/// No node is done yet.
pub open spec fn none_done(n: int) -> Seq<bool> {
    Seq::new(n as nat, |v: int| false)
}

/// The nodes among the first `i` of `queue`.
spec fn first_of(queue: Seq<usize>, i: int, n: int) -> Seq<bool> {
    Seq::new(n as nat, |v: int| queue.take(i).contains(v as usize))
}

/// `done` takes in every node whose incoming edges all leave `done` nodes.
pub open spec fn closed_under_sources(edges: Seq<(usize, usize)>, n: int, done: Seq<bool>) -> bool {
    forall|v: int| 0 <= v < n && pending(edges, done, v) == 0 ==> #[trigger] done[v]
}

/// The nodes that removing nodes without pending incoming edges, one after another, reaches:
/// the smallest set that takes in every node whose incoming edges all leave it; each node of it
/// ranks one above the highest-ranked node with an edge into it, and every other node one above
/// the highest-ranked such node that is in it (rank 0 when there is none).
pub open spec fn is_longest_path_ranking(
    edges: Seq<(usize, usize)>,
    n: int,
    done: Seq<bool>,
    ranks: Seq<usize>,
) -> bool {
    &&& done.len() == n
    &&& ranks.len() == n
    &&& forall|v: int| 0 <= v < n ==> (#[trigger] done[v] <==> pending(edges, done, v) == 0)
    &&& forall|d: Seq<bool>|
        d.len() == n && #[trigger] closed_under_sources(edges, n, d) ==> forall|v: int|
            0 <= v < n && done[v] ==> #[trigger] d[v]
    &&& forall|v: int| 0 <= v < n ==> #[trigger] ranks[v] == rank_from(edges, done, ranks, v)
}

} // verus!

verus! {

proof fn lemma_first_of_push(queue: Seq<usize>, x: usize, i: int, n: int)
    requires
        0 <= i <= queue.len(),
    ensures
        first_of(queue.push(x), i, n) == first_of(queue, i, n),
{
    assert(queue.push(x).take(i) == queue.take(i));
}

proof fn lemma_first_of_next(queue: Seq<usize>, head: int, n: int)
    requires
        0 <= head < queue.len(),
        queue[head] < n,
        n <= usize::MAX,
    ensures
        first_of(queue, head + 1, n) == first_of(queue, head, n).update(queue[head] as int, true),
{
    broadcast use vstd::seq_lib::lemma_seq_contains_after_push;

    assert(queue.take(head + 1) == queue.take(head).push(queue[head]));
    assert(first_of(queue, head + 1, n) =~= first_of(queue, head, n).update(queue[head] as int, true));
}

proof fn lemma_out_targets_below(edges: Seq<(usize, usize)>, u: int, n: int)
    requires
        endpoints_below(edges, n),
    ensures
        forall|k: int| 0 <= k < out_targets(edges, u).len() ==> #[trigger] out_targets(edges, u)[k] < n,
    decreases edges.len(),
{
    if edges.len() > 0 {
        let prev = edges.drop_last();
        assert(endpoints_below(prev, n)) by {
            assert forall|i: int| 0 <= i < prev.len() implies prev[i].0 < n && prev[i].1 < n by {
                assert(prev[i] == edges[i]);
            }
        }
        lemma_out_targets_below(prev, u, n);
        assert(edges.last() == edges[edges.len() - 1]);
        let p = out_targets(prev, u);
        assert forall|k: int| 0 <= k < out_targets(edges, u).len() implies #[trigger] out_targets(edges, u)[k] < n by {
            if k < p.len() {
                if edges.last().0 == u {
                    assert(out_targets(edges, u)[k] == p[k]);
                }
            }
        }
    }
}

/// The list, for each of `node_count` nodes, of the targets of the edges leaving it.
pub fn outgoing_lists(node_count: usize, edges: &[(usize, usize)]) -> (outs: Vec<Vec<usize>>)
    requires
        endpoints_below(edges@, node_count as int),
    ensures
        outs.len() == node_count,
        forall|u: int| 0 <= u < node_count ==> #[trigger] outs@[u]@ == out_targets(edges@, u),
{
    let mut outs: Vec<Vec<usize>> = Vec::new();
    while outs.len() < node_count
        invariant
            outs.len() <= node_count,
            forall|u: int| 0 <= u < outs.len() ==> #[trigger] outs@[u]@ == Seq::<usize>::empty(),
        decreases node_count - outs.len(),
    {
        outs.push(Vec::new());
    }
    let mut i: usize = 0;
    while i < edges.len()
        invariant
            i <= edges.len(),
            endpoints_below(edges@, node_count as int),
            outs.len() == node_count,
            forall|u: int| 0 <= u < node_count ==> #[trigger] outs@[u]@ == out_targets(edges@.take(i as int), u),
        decreases edges.len() - i,
    {
        let (s, t) = edges[i];
        assert(edges@.take(i + 1).drop_last() =~= edges@.take(i as int));
        let mut row = outs[s].clone();
        assert(row@ =~= outs@[s as int]@);
        row.push(t);
        outs.set(s, row);
        i = i + 1;
    }
    assert(edges@.take(edges.len() as int) =~= edges@);
    outs
}

/// The number of edges into each of `node_count` nodes.
pub fn in_degrees(node_count: usize, edges: &[(usize, usize)]) -> (counts: Vec<usize>)
    requires
        endpoints_below(edges@, node_count as int),
    ensures
        counts.len() == node_count,
        forall|v: int| 0 <= v < node_count ==> #[trigger] counts@[v] == pending(edges@, none_done(node_count as int), v),
{
    let ghost none = none_done(node_count as int);
    let mut counts: Vec<usize> = Vec::new();
    while counts.len() < node_count
        invariant
            counts.len() <= node_count,
            forall|v: int| 0 <= v < counts.len() ==> #[trigger] counts@[v] == 0,
        decreases node_count - counts.len(),
    {
        counts.push(0);
    }
    let mut i: usize = 0;
    while i < edges.len()
        invariant
            i <= edges.len(),
            endpoints_below(edges@, node_count as int),
            counts.len() == node_count,
            none == none_done(node_count as int),
            forall|v: int| 0 <= v < node_count ==> #[trigger] counts@[v] == pending(edges@.take(i as int), none, v),
            forall|v: int| 0 <= v < node_count ==> #[trigger] counts@[v] <= i,
        decreases edges.len() - i,
    {
        let (s, t) = edges[i];
        assert(edges@.take(i + 1).drop_last() =~= edges@.take(i as int));
        assert(!none[s as int]);
        counts.set(t, counts[t] + 1);
        i = i + 1;
    }
    assert(edges@.take(edges.len() as int) =~= edges@);
    counts
}

} // verus!

verus! {

/// The state of the longest-path ranking after the first `head` nodes of `queue` are done.
#[verifier::opaque]
spec fn kahn_state(
    n: int,
    edges: Seq<(usize, usize)>,
    outs: Seq<Seq<usize>>,
    queue: Seq<usize>,
    head: int,
    counts: Seq<usize>,
    ranks: Seq<usize>,
) -> bool {
    &&& 0 <= n < usize::MAX
    &&& endpoints_below(edges, n)
    &&& outs.len() == n
    &&& forall|u: int| 0 <= u < n ==> #[trigger] outs[u] == out_targets(edges, u)
    &&& counts.len() == n
    &&& ranks.len() == n
    &&& 0 <= head <= queue.len() <= n
    &&& queue.no_duplicates()
    &&& forall|i: int| 0 <= i < queue.len() ==> #[trigger] queue[i] < n
    &&& forall|v: int| 0 <= v < n ==> (queue.contains(v as usize) <==> #[trigger] counts[v] == 0)
    &&& forall|v: int| 0 <= v < n ==> #[trigger] counts[v] == pending(edges, first_of(queue, head, n), v)
    &&& forall|v: int|
        0 <= v < n ==> #[trigger] ranks[v] == rank_from(edges, first_of(queue, head, n), ranks, v)
    &&& forall|v: int| 0 <= v < n ==> #[trigger] ranks[v] <= head
    &&& forall|i: int|
        0 <= i < queue.len() ==> pending(edges, first_of(queue, i, n), #[trigger] queue[i] as int) == 0
}

/// The state while the node at `head` has had the first `k` targets of its edges handled,
/// starting from the ranks `base`.
#[verifier::opaque]
spec fn node_state(
    n: int,
    edges: Seq<(usize, usize)>,
    outs: Seq<Seq<usize>>,
    queue: Seq<usize>,
    head: int,
    counts: Seq<usize>,
    ranks: Seq<usize>,
    base: Seq<usize>,
    k: int,
) -> bool {
    let done = first_of(queue, head, n);
    let u = queue[head] as int;
    let ou = out_targets(edges, u);
    &&& 0 <= n < usize::MAX
    &&& endpoints_below(edges, n)
    &&& outs.len() == n
    &&& forall|w: int| 0 <= w < n ==> #[trigger] outs[w] == out_targets(edges, w)
    &&& counts.len() == n
    &&& ranks.len() == n
    &&& base.len() == n
    &&& 0 <= head < queue.len() <= n
    &&& 0 <= k <= ou.len()
    &&& queue.no_duplicates()
    &&& forall|i: int| 0 <= i < queue.len() ==> #[trigger] queue[i] < n
    &&& forall|v: int| 0 <= v < n ==> (queue.contains(v as usize) <==> #[trigger] counts[v] == 0)
    &&& forall|t: int|
        0 <= t < n ==> #[trigger] counts[t] + occurrences(ou.take(k), t as usize) == pending(
            edges,
            done,
            t,
        )
    &&& forall|t: int|
        0 <= t < n ==> #[trigger] ranks[t] == if occurrences(ou.take(k), t as usize) > 0 && base[u]
            + 1 > base[t] {
            (base[u] + 1) as usize
        } else {
            base[t]
        }
    &&& forall|v: int| 0 <= v < n ==> #[trigger] base[v] == rank_from(edges, done, base, v)
    &&& forall|v: int| 0 <= v < n ==> #[trigger] base[v] <= head
    &&& forall|i: int|
        0 <= i < queue.len() ==> pending(edges, first_of(queue, i, n), #[trigger] queue[i] as int) == 0
}

proof fn lemma_kahn_basics(
    n: int,
    edges: Seq<(usize, usize)>,
    outs: Seq<Seq<usize>>,
    queue: Seq<usize>,
    head: int,
    counts: Seq<usize>,
    ranks: Seq<usize>,
)
    requires
        kahn_state(n, edges, outs, queue, head, counts, ranks),
    ensures
        0 <= head <= queue.len() <= n,
{
    reveal(kahn_state);
}

proof fn lemma_kahn_begin_node(
    n: int,
    edges: Seq<(usize, usize)>,
    outs: Seq<Seq<usize>>,
    queue: Seq<usize>,
    head: int,
    counts: Seq<usize>,
    ranks: Seq<usize>,
)
    requires
        kahn_state(n, edges, outs, queue, head, counts, ranks),
        head < queue.len(),
    ensures
        node_state(n, edges, outs, queue, head, counts, ranks, ranks, 0),
        queue[head] < n,
        ranks[queue[head] as int] <= head,
        outs[queue[head] as int] == out_targets(edges, queue[head] as int),
        outs.len() == n,
        counts.len() == n,
        ranks.len() == n,
        n < usize::MAX,
        queue.len() <= n,
{
    reveal(kahn_state);
    reveal(node_state);
    let u = queue[head] as int;
    let ou = out_targets(edges, u);
    assert(ou.take(0) =~= Seq::<usize>::empty());
}

/// Facts needed before handling the `k`-th target `t` of the node at `head`.
proof fn lemma_kahn_step_facts(
    n: int,
    edges: Seq<(usize, usize)>,
    outs: Seq<Seq<usize>>,
    queue: Seq<usize>,
    head: int,
    counts: Seq<usize>,
    ranks: Seq<usize>,
    base: Seq<usize>,
    k: int,
)
    requires
        node_state(n, edges, outs, queue, head, counts, ranks, base, k),
        k < out_targets(edges, queue[head] as int).len(),
    ensures
        ({
            let u = queue[head] as int;
            let t = out_targets(edges, u)[k];
            &&& t < n
            &&& counts[t as int] >= 1
            &&& t != u
            &&& ranks[u] == base[u]
            &&& base[u] <= head
            &&& ranks[t as int] <= head + 1
        }),
{
    reveal(node_state);
    let done = first_of(queue, head, n);
    let u = queue[head] as int;
    let ou = out_targets(edges, u);
    let t = ou[k];
    lemma_out_targets_below(edges, u, n);
    assert(!done[u]) by {
        if queue.take(head).contains(queue[head]) {
            let j = choose|j: int| 0 <= j < head && queue.take(head)[j] == queue[head];
            assert(queue[j] == queue[head]);
        }
    }
    assert(pending(edges, first_of(queue, head, n), queue[head] as int) == 0);
    lemma_pending_done(edges, done, u, t as int);
    lemma_pending_done(edges, done, u, u);
    lemma_occurrences_prefix(ou, k + 1, t);
    lemma_occurrences_prefix(ou, k, u as usize);
    assert(ou.take(k + 1) == ou.take(k).push(t));
    lemma_occurrences_push(ou.take(k), t, t);
    assert(counts[t as int] + occurrences(ou.take(k), t) == pending(edges, done, t as int));
}

} // verus!

verus! {

proof fn lemma_kahn_step(
    n: int,
    edges: Seq<(usize, usize)>,
    outs: Seq<Seq<usize>>,
    queue: Seq<usize>,
    head: int,
    counts: Seq<usize>,
    ranks: Seq<usize>,
    base: Seq<usize>,
    k: int,
)
    requires
        node_state(n, edges, outs, queue, head, counts, ranks, base, k),
        k < out_targets(edges, queue[head] as int).len(),
    ensures
        ({
            let u = queue[head] as int;
            let t = out_targets(edges, u)[k];
            let counts2 = counts.update(t as int, (counts[t as int] - 1) as usize);
            let ranks2 = ranks.update(
                t as int,
                if ranks[t as int] >= ranks[u] + 1 {
                    ranks[t as int]
                } else {
                    (ranks[u] + 1) as usize
                },
            );
            let queue2 = if counts2[t as int] == 0 {
                queue.push(t)
            } else {
                queue
            };
            node_state(n, edges, outs, queue2, head, counts2, ranks2, base, k + 1)
        }),
{
    lemma_kahn_step_facts(n, edges, outs, queue, head, counts, ranks, base, k);
    reveal(node_state);
    broadcast use vstd::seq_lib::lemma_seq_contains_after_push;

    let done = first_of(queue, head, n);
    let u = queue[head] as int;
    let ou = out_targets(edges, u);
    let t = ou[k];
    let counts2 = counts.update(t as int, (counts[t as int] - 1) as usize);
    let ranks2 = ranks.update(
        t as int,
        if ranks[t as int] >= ranks[u] + 1 {
            ranks[t as int]
        } else {
            (ranks[u] + 1) as usize
        },
    );
    let queue2 = if counts2[t as int] == 0 {
        queue.push(t)
    } else {
        queue
    };
    assert(ou.take(k + 1) == ou.take(k).push(t));
    assert forall|x: usize| occurrences(ou.take(k + 1), x) == occurrences(ou.take(k), x) + if t == x {
        1nat
    } else {
        0nat
    } by {
        lemma_occurrences_push(ou.take(k), t, x);
    }
    assert(queue2[head] == queue[head]);
    assert(first_of(queue2, head, n) == done) by {
        lemma_first_of_push(queue, t, head, n);
    }
    assert(!queue.contains(t));
    assert forall|t2: int| 0 <= t2 < n implies #[trigger] counts2[t2] + occurrences(ou.take(k + 1), t2 as usize)
        == pending(edges, done, t2) by {
        assert(counts[t2] + occurrences(ou.take(k), t2 as usize) == pending(edges, done, t2));
    }
    assert forall|t2: int| 0 <= t2 < n implies #[trigger] ranks2[t2] == if occurrences(ou.take(k + 1), t2 as usize)
        > 0 && base[u] + 1 > base[t2] {
        (base[u] + 1) as usize
    } else {
        base[t2]
    } by {
        assert(ranks[t2] == if occurrences(ou.take(k), t2 as usize) > 0 && base[u] + 1 > base[t2] {
            (base[u] + 1) as usize
        } else {
            base[t2]
        });
    }
    if counts2[t as int] == 0 {
        assert(queue2.no_duplicates()) by {
            assert forall|i: int, j: int| 0 <= i < queue2.len() && 0 <= j < queue2.len() && i != j implies queue2[i] != queue2[j] by {
                if i < queue.len() && j < queue.len() {
                } else if i < queue.len() {
                    assert(queue.contains(queue[i]));
                } else if j < queue.len() {
                    assert(queue.contains(queue[j]));
                }
            }
        }
        assert forall|i: int| 0 <= i < queue2.len() implies #[trigger] queue2[i] < n by {
            if i < queue.len() {
                assert(queue2[i] == queue[i]);
            }
        }
        crate::graph::lemma_distinct_below_len(queue2, n as usize);
        assert(!done[u]) by {
            if queue.take(head).contains(queue[head]) {
                let j = choose|j: int| 0 <= j < head && queue.take(head)[j] == queue[head];
                assert(queue[j] == queue[head]);
            }
        }
        lemma_pending_done(edges, done, u, t as int);
        lemma_occurrences_prefix(ou, k + 1, t);
        let last = queue.len() as int;
        assert(pending(edges, done.update(u, true), t as int) == 0);
        assert(first_of(queue2, last, n) == first_of(queue, last, n)) by {
            lemma_first_of_push(queue, t, last, n);
        }
        assert forall|s: int| 0 <= s < n && done.update(u, true)[s] implies first_of(queue, last, n)[s] by {
            if s == u {
                assert(queue.take(last)[head] == queue[head]);
            } else {
                let j = choose|j: int| 0 <= j < head && queue.take(head)[j] == s as usize;
                assert(queue.take(last)[j] == s as usize);
            }
        }
        lemma_pending_monotone(edges, done.update(u, true), first_of(queue, last, n), t as int);
        assert forall|i: int| 0 <= i < queue2.len() implies pending(edges, first_of(queue2, i, n), #[trigger] queue2[i] as int)
            == 0 by {
            if i < last {
                lemma_first_of_push(queue, t, i, n);
                assert(queue2[i] == queue[i]);
            }
        }
    }
}

} // verus!

verus! {

proof fn lemma_kahn_end_node(
    n: int,
    edges: Seq<(usize, usize)>,
    outs: Seq<Seq<usize>>,
    queue: Seq<usize>,
    head: int,
    counts: Seq<usize>,
    ranks: Seq<usize>,
    base: Seq<usize>,
    k: int,
)
    requires
        node_state(n, edges, outs, queue, head, counts, ranks, base, k),
        k == out_targets(edges, queue[head] as int).len(),
    ensures
        kahn_state(n, edges, outs, queue, head + 1, counts, ranks),
{
    reveal(node_state);
    reveal(kahn_state);
    let done = first_of(queue, head, n);
    let u = queue[head] as int;
    let ou = out_targets(edges, u);
    let done2 = first_of(queue, head + 1, n);
    assert(ou.take(k) == ou);
    lemma_first_of_next(queue, head, n);
    assert(!done[u]) by {
        if queue.take(head).contains(queue[head]) {
            let j = choose|j: int| 0 <= j < head && queue.take(head)[j] == queue[head];
            assert(queue[j] == queue[head]);
        }
    }
    assert forall|t: int| 0 <= t < n implies #[trigger] counts[t] == pending(edges, done2, t) by {
        lemma_pending_done(edges, done, u, t);
    }
    assert forall|s: int| 0 <= s < n && done[s] implies pending(edges, done, s) == 0 by {
        let j = choose|j: int| 0 <= j < head && queue.take(head)[j] == s as usize;
        assert(queue[j] == s as usize);
        assert(pending(edges, first_of(queue, j, n), queue[j] as int) == 0);
        assert forall|x: int| 0 <= x < n && first_of(queue, j, n)[x] implies done[x] by {
            let m = choose|m: int| 0 <= m < j && queue.take(j)[m] == x as usize;
            assert(queue.take(head)[m] == x as usize);
        }
        lemma_pending_monotone(edges, first_of(queue, j, n), done, s);
    }
    assert(pending(edges, done, u) == 0);
    assert forall|s: int| 0 <= s < n && done2[s] implies ranks[s] == base[s] by {
        if s != u {
            assert(done[s]);
        }
        lemma_pending_done(edges, done, u, s);
        assert(ranks[s] == if occurrences(ou.take(k), s as usize) > 0 && base[u] + 1 > base[s] {
            (base[u] + 1) as usize
        } else {
            base[s]
        });
    }
    assert forall|t: int| 0 <= t < n implies #[trigger] ranks[t] == rank_from(edges, done2, ranks, t) by {
        lemma_rank_done(edges, done, base, u, t);
        lemma_rank_from_frame(edges, done2, ranks, base, t);
        assert(base[t] == rank_from(edges, done, base, t));
        assert(ranks[t] == if occurrences(ou.take(k), t as usize) > 0 && base[u] + 1 > base[t] {
            (base[u] + 1) as usize
        } else {
            base[t]
        });
    }
    assert forall|t: int| 0 <= t < n implies #[trigger] ranks[t] <= head + 1 by {
        assert(ranks[t] == if occurrences(ou.take(k), t as usize) > 0 && base[u] + 1 > base[t] {
            (base[u] + 1) as usize
        } else {
            base[t]
        });
    }
}

} // verus!

verus! {

proof fn lemma_rank_from_none(edges: Seq<(usize, usize)>, n: int, ranks: Seq<usize>, v: int)
    requires
        endpoints_below(edges, n),
    ensures
        rank_from(edges, none_done(n), ranks, v) == 0,
    decreases edges.len(),
{
    if edges.len() > 0 {
        let prev = edges.drop_last();
        assert(endpoints_below(prev, n)) by {
            assert forall|i: int| 0 <= i < prev.len() implies prev[i].0 < n && prev[i].1 < n by {
                assert(prev[i] == edges[i]);
            }
        }
        lemma_rank_from_none(prev, n, ranks, v);
        assert(edges.last() == edges[edges.len() - 1]);
    }
}

proof fn lemma_kahn_init(
    n: int,
    edges: Seq<(usize, usize)>,
    outs: Seq<Seq<usize>>,
    queue: Seq<usize>,
    counts: Seq<usize>,
    ranks: Seq<usize>,
)
    requires
        0 <= n < usize::MAX,
        endpoints_below(edges, n),
        outs.len() == n,
        forall|u: int| 0 <= u < n ==> #[trigger] outs[u] == out_targets(edges, u),
        counts.len() == n,
        forall|v: int| 0 <= v < n ==> #[trigger] counts[v] == pending(edges, none_done(n), v),
        ranks.len() == n,
        forall|v: int| 0 <= v < n ==> #[trigger] ranks[v] == 0,
        queue.no_duplicates(),
        forall|i: int| 0 <= i < queue.len() ==> #[trigger] queue[i] < n,
        forall|v: int| 0 <= v < n ==> (queue.contains(v as usize) <==> #[trigger] counts[v] == 0),
    ensures
        kahn_state(n, edges, outs, queue, 0, counts, ranks),
{
    reveal(kahn_state);
    assert(first_of(queue, 0, n) =~= none_done(n));
    crate::graph::lemma_distinct_below_len(queue, n as usize);
    assert forall|v: int| 0 <= v < n implies #[trigger] ranks[v] == rank_from(edges, first_of(queue, 0, n), ranks, v) by {
        lemma_rank_from_none(edges, n, ranks, v);
    }
    assert forall|i: int| 0 <= i < queue.len() implies pending(edges, first_of(queue, i, n), #[trigger] queue[i] as int) == 0 by {
        assert(queue.contains(queue[i]));
        assert(counts[queue[i] as int] == 0);
        lemma_pending_monotone(edges, none_done(n), first_of(queue, i, n), queue[i] as int);
    }
}

proof fn lemma_kahn_result(
    n: int,
    edges: Seq<(usize, usize)>,
    outs: Seq<Seq<usize>>,
    queue: Seq<usize>,
    counts: Seq<usize>,
    ranks: Seq<usize>,
)
    requires
        kahn_state(n, edges, outs, queue, queue.len() as int, counts, ranks),
    ensures
        is_longest_path_ranking(edges, n, first_of(queue, queue.len() as int, n), ranks),
        forall|v: int| 0 <= v < n ==> #[trigger] ranks[v] <= n,
{
    reveal(kahn_state);
    let done = first_of(queue, queue.len() as int, n);
    assert(queue.take(queue.len() as int) == queue);
    assert forall|v: int| 0 <= v < n implies (#[trigger] done[v] <==> pending(edges, done, v) == 0) by {
        assert(done[v] == queue.contains(v as usize));
        assert(counts[v] == pending(edges, done, v));
    }
    assert forall|v: int| 0 <= v < n implies #[trigger] ranks[v] == rank_from(edges, done, ranks, v) by {}
    assert forall|d: Seq<bool>| d.len() == n && #[trigger] closed_under_sources(edges, n, d) implies forall|v: int|
        0 <= v < n && done[v] ==> #[trigger] d[v] by {
        lemma_queue_in_closed(n, edges, queue, d, queue.len() as int);
        assert forall|v: int| 0 <= v < n && done[v] implies #[trigger] d[v] by {
            let j = choose|j: int| 0 <= j < queue.len() && queue[j] == v as usize;
        }
    }
}

proof fn lemma_queue_in_closed(n: int, edges: Seq<(usize, usize)>, queue: Seq<usize>, d: Seq<bool>, m: int)
    requires
        0 <= n <= usize::MAX,
        0 <= m <= queue.len(),
        d.len() == n,
        endpoints_below(edges, n),
        closed_under_sources(edges, n, d),
        forall|i: int| 0 <= i < queue.len() ==> #[trigger] queue[i] < n,
        forall|i: int|
            0 <= i < queue.len() ==> pending(edges, first_of(queue, i, n), #[trigger] queue[i] as int) == 0,
    ensures
        forall|i: int| 0 <= i < m ==> d[#[trigger] queue[i] as int],
    decreases m,
{
    if m > 0 {
        lemma_queue_in_closed(n, edges, queue, d, m - 1);
        let i = m - 1;
        assert forall|x: int| 0 <= x < n && first_of(queue, i, n)[x] implies d[x] by {
            let j = choose|j: int| 0 <= j < i && queue.take(i)[j] == x as usize;
            assert(queue[j] == x as usize);
        }
        lemma_pending_monotone(edges, first_of(queue, i, n), d, queue[i] as int);
        assert(pending(edges, d, queue[i] as int) == 0);
    }
}

/// Ranks `node_count` nodes by the longest chain of edges that leads to them, removing nodes
/// without pending incoming edges one after another, starting from those without any, in
/// increasing order. Some node must have no incoming edge when there are nodes at all.
pub fn longest_path_ranks(node_count: usize, edges: &[(usize, usize)]) -> (ranks: Vec<usize>)
    requires
        node_count < usize::MAX,
        endpoints_below(edges@, node_count as int),
        node_count == 0 || exists|v: int|
            0 <= v < node_count && pending(edges@, none_done(node_count as int), v) == 0,
    ensures
        exists|done: Seq<bool>| is_longest_path_ranking(edges@, node_count as int, done, ranks@),
        forall|v: int| 0 <= v < node_count ==> #[trigger] ranks@[v] <= node_count,
{
    let n = node_count;
    let ghost es = edges@;
    let outs = outgoing_lists(n, edges);
    let mut counts = in_degrees(n, edges);
    let mut queue: Vec<usize> = Vec::new();
    let mut v: usize = 0;
    while v < n
        invariant
            v <= n,
            counts.len() == n,
            queue@.no_duplicates(),
            forall|i: int| 0 <= i < queue.len() ==> #[trigger] queue@[i] < v,
            forall|w: int| 0 <= w < v ==> (queue@.contains(w as usize) <==> #[trigger] counts@[w] == 0),
        decreases n - v,
    {
        if counts[v] == 0 {
            let ghost before = queue@;
            queue.push(v);
            proof {
                broadcast use vstd::seq_lib::lemma_seq_contains_after_push;
                assert(!before.contains(v)) by {
                    if before.contains(v) {
                        let j = choose|j: int| 0 <= j < before.len() && before[j] == v;
                    }
                }
                assert(queue@.no_duplicates()) by {
                    assert forall|i: int, j: int| 0 <= i < queue@.len() && 0 <= j < queue@.len() && i != j implies queue@[i] != queue@[j] by {
                        if i < before.len() && j < before.len() {
                        } else if i < before.len() {
                            assert(before.contains(before[i]));
                        } else if j < before.len() {
                            assert(before.contains(before[j]));
                        }
                    }
                }
            }
        } else {
            proof {
                broadcast use vstd::seq_lib::lemma_seq_contains_after_push;
            }
        }
        proof {
            broadcast use vstd::seq_lib::lemma_seq_contains_after_push;
            assert forall|w: int| 0 <= w < v + 1 implies (queue@.contains(w as usize) <==> #[trigger] counts@[w] == 0) by {
                if w < v && queue@.contains(w as usize) {
                    let j = choose|j: int| 0 <= j < queue@.len() && queue@[j] == w as usize;
                }
            }
        }
        v = v + 1;
    }
    let mut ranks: Vec<usize> = Vec::new();
    while ranks.len() < n
        invariant
            ranks.len() <= n,
            forall|w: int| 0 <= w < ranks.len() ==> #[trigger] ranks@[w] == 0,
        decreases n - ranks.len(),
    {
        ranks.push(0);
    }
    let ghost lists = outs.deep_view();
    proof {
        assert forall|u: int| 0 <= u < n implies #[trigger] lists[u] == out_targets(es, u) by {
            assert(lists[u] =~= outs@[u]@);
        }
        lemma_kahn_init(n as int, es, lists, queue@, counts@, ranks@);
    }
    let mut head: usize = 0;
    while head < queue.len()
        invariant
            n == node_count,
            es == edges@,
            lists == outs.deep_view(),
            outs.len() == n,
            kahn_state(n as int, es, lists, queue@, head as int, counts@, ranks@),
        decreases n - head,
    {
        proof {
            lemma_kahn_begin_node(n as int, es, lists, queue@, head as int, counts@, ranks@);
        }
        let ghost base = ranks@;
        let u = queue[head];
        let mut k: usize = 0;
        proof {
            assert(outs@[u as int]@ =~= lists[u as int]);
        }
        while k < outs[u].len()
            invariant
                n == node_count,
                es == edges@,
                lists == outs.deep_view(),
                outs.len() == n,
                u < n,
                head < queue.len(),
                u == queue@[head as int],
                outs@[u as int]@ == out_targets(es, u as int),
                k <= outs@[u as int]@.len(),
                counts.len() == n,
                ranks.len() == n,
                node_state(n as int, es, lists, queue@, head as int, counts@, ranks@, base, k as int),
            decreases outs@[u as int]@.len() - k,
        {
            proof {
                lemma_kahn_step_facts(n as int, es, lists, queue@, head as int, counts@, ranks@, base, k as int);
                lemma_kahn_step(n as int, es, lists, queue@, head as int, counts@, ranks@, base, k as int);
            }
            let t = outs[u][k];
            let raised = ranks[u] + 1;
            let new_rank = if ranks[t] >= raised {
                ranks[t]
            } else {
                raised
            };
            ranks.set(t, new_rank);
            let left = counts[t] - 1;
            counts.set(t, left);
            if left == 0 {
                queue.push(t);
            }
            k = k + 1;
        }
        proof {
            lemma_kahn_end_node(n as int, es, lists, queue@, head as int, counts@, ranks@, base, k as int);
        }
        head = head + 1;
    }
    proof {
        lemma_kahn_basics(n as int, es, lists, queue@, head as int, counts@, ranks@);
        lemma_kahn_result(n as int, es, lists, queue@, counts@, ranks@);
    }
    ranks
}

} // verus!

verus! {

/// The layers of a layered drawing of the nodes named by `ids`: each node sits in the layer of
/// its longest-path rank along the edges between named nodes, and each layer lists its nodes
/// in increasing order. Some node must have no incoming edge when there are nodes at all.
pub fn layered_layers(ids: &Vec<String>, edges: &Vec<(String, String)>) -> (layers: Vec<Vec<usize>>)
    requires
        ids.len() < usize::MAX,
        ids.len() == 0 || exists|v: int|
            0 <= v < ids.len() && pending(
                resolved_edges(ids.deep_view(), edges.deep_view()),
                none_done(ids.len() as int),
                v,
            ) == 0,
    ensures
        ids.len() == 0 ==> layers.len() == 0,
        ids.len() > 0 ==> exists|done: Seq<bool>, ranks: Seq<usize>|
            is_longest_path_ranking(
                resolved_edges(ids.deep_view(), edges.deep_view()),
                ids.len() as int,
                done,
                ranks,
            ) && layers.len() == max_level(ranks) + 1 && forall|r: int|
                0 <= r < layers.len() ==> #[trigger] layers@[r]@ == with_level(ranks, r),
{
    let n = ids.len();
    if n == 0 {
        return Vec::new();
    }
    let pairs = resolve_edges(ids, edges);
    let ranks = longest_path_ranks(n, pairs.as_slice());
    assert forall|i: int| 0 <= i < ranks@.len() implies ranks@[i] < usize::MAX by {
        assert(ranks@[i] <= n);
    }
    level_groups(ranks.as_slice())
}

/// Whether some node named by `ids` has no incoming edge between named nodes, or there are no
/// nodes: exactly when `layered_layers` can rank the nodes.
pub fn has_source_node(ids: &Vec<String>, edges: &Vec<(String, String)>) -> (found: bool)
    ensures
        found == (ids.len() == 0 || exists|v: int|
            0 <= v < ids.len() && pending(
                resolved_edges(ids.deep_view(), edges.deep_view()),
                none_done(ids.len() as int),
                v,
            ) == 0),
{
    let n = ids.len();
    if n == 0 {
        return true;
    }
    let pairs = resolve_edges(ids, edges);
    let counts = in_degrees(n, pairs.as_slice());
    let mut v: usize = 0;
    while v < n
        invariant
            v <= n,
            n == ids.len(),
            counts.len() == n,
            pairs@ == resolved_edges(ids.deep_view(), edges.deep_view()),
            forall|u: int| 0 <= u < n ==> #[trigger] counts@[u] == pending(pairs@, none_done(n as int), u),
            forall|u: int| 0 <= u < v ==> #[trigger] pending(pairs@, none_done(n as int), u) != 0,
        decreases n - v,
    {
        if counts[v] == 0 {
            assert(pending(pairs@, none_done(n as int), v as int) == 0);
            return true;
        }
        v = v + 1;
    }
    false
}

} // verus!

verus! {

/// Some edge runs from `u` to `v`.
pub open spec fn has_edge(edges: Seq<(usize, usize)>, u: int, v: int) -> bool {
    exists|i: int| 0 <= i < edges.len() && edges[i].0 == u && #[trigger] edges[i].1 == v
}

/// `p` follows edges from its first node back to that node.
pub open spec fn is_cycle(edges: Seq<(usize, usize)>, p: Seq<usize>) -> bool {
    &&& p.len() >= 2
    &&& p[0] == p.last()
    &&& forall|i: int| 1 <= i < p.len() ==> has_edge(edges, p[i - 1] as int, #[trigger] p[i] as int)
}

/// No sequence of edges leads from a node back to it.
pub open spec fn acyclic(edges: Seq<(usize, usize)>) -> bool {
    forall|p: Seq<usize>| !#[trigger] is_cycle(edges, p)
}

/// A node with a pending incoming edge has an edge into it from a node that is not done.
proof fn lemma_pending_source(edges: Seq<(usize, usize)>, done: Seq<bool>, v: int)
    requires
        pending(edges, done, v) > 0,
    ensures
        exists|i: int| 0 <= i < edges.len() && edges[i].1 == v && !done[edges[i].0 as int],
    decreases edges.len(),
{
    let prev = edges.drop_last();
    let e = edges.last();
    assert(e == edges[edges.len() - 1]);
    if e.1 == v && !done[e.0 as int] {
    } else {
        lemma_pending_source(prev, done, v);
        let i = choose|i: int| 0 <= i < prev.len() && prev[i].1 == v && !done[prev[i].0 as int];
        assert(edges[i] == prev[i]);
    }
}

/// An edge from a `done` node raises the rank bound of its target above the rank of its source.
proof fn lemma_rank_from_edge(edges: Seq<(usize, usize)>, done: Seq<bool>, ranks: Seq<usize>, i: int)
    requires
        0 <= i < edges.len(),
        done[edges[i].0 as int],
    ensures
        rank_from(edges, done, ranks, edges[i].1 as int) >= ranks[edges[i].0 as int] + 1,
    decreases edges.len(),
{
    let prev = edges.drop_last();
    let t = edges[i].1 as int;
    if i == edges.len() - 1 {
        assert(edges.last() == edges[i]);
    } else {
        assert(prev[i] == edges[i]);
        lemma_rank_from_edge(prev, done, ranks, i);
    }
}

/// Walking back from a node that is not done, along edges from nodes that are not done, for
/// `k` steps, when every node that is not done has such an edge into it.
proof fn lemma_back_chain(edges: Seq<(usize, usize)>, n: int, done: Seq<bool>, v: usize, k: nat) -> (p: Seq<usize>)
    requires
        done.len() == n,
        endpoints_below(edges, n),
        v < n,
        !done[v as int],
        forall|u: int| 0 <= u < n && !done[u] ==> #[trigger] pending(edges, done, u) > 0,
    ensures
        p.len() == k + 1,
        p[0] == v,
        forall|j: int| 0 <= j < p.len() ==> #[trigger] p[j] < n && !done[p[j] as int],
        forall|j: int| 0 <= j < k ==> has_edge(edges, #[trigger] p[j + 1] as int, p[j] as int),
    decreases k,
{
    if k == 0 {
        seq![v]
    } else {
        let q = lemma_back_chain(edges, n, done, v, (k - 1) as nat);
        let u = q[k - 1];
        assert(pending(edges, done, u as int) > 0);
        lemma_pending_source(edges, done, u as int);
        let i = choose|i: int| 0 <= i < edges.len() && edges[i].1 == u && !done[edges[i].0 as int];
        let w = edges[i].0;
        let p = q.push(w);
        assert(has_edge(edges, w as int, u as int));
        assert forall|j: int| 0 <= j < k implies has_edge(edges, #[trigger] p[j + 1] as int, p[j] as int) by {
            if j < k - 1 {
                assert(p[j + 1] == q[j + 1] && p[j] == q[j]);
            } else {
                assert(p[j + 1] == w && p[j] == u);
            }
        }
        assert forall|j: int| 0 <= j < p.len() implies #[trigger] p[j] < n && !done[p[j] as int] by {
            if j < q.len() {
                assert(p[j] == q[j]);
            }
        }
        p
    }
}

/// When every node that is not done has an incoming edge from a node that is not done, and
/// some node is not done, the edges hold a cycle.
proof fn lemma_stuck_has_cycle(edges: Seq<(usize, usize)>, n: int, done: Seq<bool>, v: usize)
    requires
        done.len() == n,
        n <= usize::MAX,
        endpoints_below(edges, n),
        v < n,
        !done[v as int],
        forall|u: int| 0 <= u < n && !done[u] ==> #[trigger] pending(edges, done, u) > 0,
    ensures
        !acyclic(edges),
{
    let p = lemma_back_chain(edges, n, done, v, n as nat);
    if p.no_duplicates() {
        lemma_distinct_below_len(p, n as usize);
        assert(false);
    }
    let (a, b) = choose|a: int, b: int| 0 <= a < p.len() && 0 <= b < p.len() && a != b && p[a] == p[b];
    let lo = if a < b { a } else { b };
    let hi = if a < b { b } else { a };
    let c = Seq::new((hi - lo + 1) as nat, |i: int| p[hi - i]);
    assert(c[0] == p[hi]);
    assert(c.last() == p[lo]);
    assert forall|i: int| 1 <= i < c.len() implies has_edge(edges, c[i - 1] as int, #[trigger] c[i] as int) by {
        let j = hi - i;
        assert(c[i] == p[j] && c[i - 1] == p[j + 1]);
        assert(has_edge(edges, p[j + 1] as int, p[j] as int));
    }
    assert(is_cycle(edges, c));
}

/// A ranking follows the edges out of its ranked nodes: the target of an edge from a node that
/// the removal reaches ranks above that node.
pub proof fn lemma_ranks_follow_edges(edges: Seq<(usize, usize)>, n: int, done: Seq<bool>, ranks: Seq<usize>, i: int)
    requires
        is_longest_path_ranking(edges, n, done, ranks),
        endpoints_below(edges, n),
        0 <= i < edges.len(),
        done[edges[i].0 as int],
    ensures
        ranks[edges[i].1 as int] > ranks[edges[i].0 as int],
{
    lemma_rank_from_edge(edges, done, ranks, i);
    assert(ranks[edges[i].1 as int] == rank_from(edges, done, ranks, edges[i].1 as int));
}

/// Without cycles, removing nodes without pending incoming edges reaches every node, and every
/// edge runs from a lower rank to a higher one.
pub proof fn lemma_acyclic_ranks_descend(edges: Seq<(usize, usize)>, n: int, done: Seq<bool>, ranks: Seq<usize>)
    requires
        is_longest_path_ranking(edges, n, done, ranks),
        endpoints_below(edges, n),
        n <= usize::MAX,
        acyclic(edges),
    ensures
        forall|v: int| 0 <= v < n ==> #[trigger] done[v],
        forall|i: int| 0 <= i < edges.len() ==> ranks[#[trigger] edges[i].1 as int] > ranks[edges[i].0 as int],
{
    assert forall|v: int| 0 <= v < n implies #[trigger] done[v] by {
        if !done[v] {
            lemma_stuck_has_cycle(edges, n, done, v as usize);
        }
    }
    assert forall|i: int| 0 <= i < edges.len() implies ranks[#[trigger] edges[i].1 as int] > ranks[edges[i].0 as int] by {
        assert(done[edges[i].0 as int]);
        lemma_ranks_follow_edges(edges, n, done, ranks, i);
    }
}

/// A graph without cycles has, when it has nodes at all, a node without incoming edges, so
/// `longest_path_ranks` accepts it.
pub proof fn lemma_acyclic_has_source(edges: Seq<(usize, usize)>, n: int)
    requires
        0 < n <= usize::MAX,
        endpoints_below(edges, n),
        acyclic(edges),
    ensures
        exists|v: int| 0 <= v < n && pending(edges, none_done(n), v) == 0,
{
    if forall|v: int| 0 <= v < n ==> #[trigger] pending(edges, none_done(n), v) > 0 {
        lemma_stuck_has_cycle(edges, n, none_done(n), 0);
    }
}

/// Without an edge into `v`, nothing is pending for `v` and its rank bound is 0.
proof fn lemma_no_edge_into(edges: Seq<(usize, usize)>, done: Seq<bool>, ranks: Seq<usize>, v: int)
    requires
        forall|i: int| 0 <= i < edges.len() ==> #[trigger] edges[i].1 != v,
    ensures
        pending(edges, done, v) == 0,
        rank_from(edges, done, ranks, v) == 0,
    decreases edges.len(),
{
    if edges.len() > 0 {
        let prev = edges.drop_last();
        assert forall|i: int| 0 <= i < prev.len() implies #[trigger] prev[i].1 != v by {
            assert(prev[i] == edges[i]);
        }
        lemma_no_edge_into(prev, done, ranks, v);
        assert(edges.last() == edges[edges.len() - 1]);
    }
}

/// A node without incoming edges is ranked first: the removal reaches it and it ranks 0.
pub proof fn lemma_sources_rank_first(edges: Seq<(usize, usize)>, n: int, done: Seq<bool>, ranks: Seq<usize>, v: int)
    requires
        is_longest_path_ranking(edges, n, done, ranks),
        0 <= v < n,
        forall|i: int| 0 <= i < edges.len() ==> #[trigger] edges[i].1 != v,
    ensures
        done[v],
        ranks[v] == 0,
{
    lemma_no_edge_into(edges, done, ranks, v);
}

} // verus!

use vstd::prelude::*;

use crate::search::{marked, scan, search_queue};

verus! {

/// The marker of a node that no search has reached yet.
pub open spec fn unseen() -> usize {
    usize::MAX
}

/// Every list names node positions below `n`, and there is one list per node.
pub open spec fn lists_below(adj: Seq<Seq<usize>>, n: int) -> bool {
    &&& adj.len() == n
    &&& forall|v: int, m: int| 0 <= v < n && 0 <= m < adj[v].len() ==> #[trigger] adj[v][m] < n
}

/// Each node of `p` is followed by a member of its list: `p` walks along arcs, an arc running
/// from each node to each member of its list.
pub open spec fn is_walk(adj: Seq<Seq<usize>>, p: Seq<usize>) -> bool {
    forall|i: int|
        0 < i < p.len() ==> p[i - 1] < adj.len() && adj[p[i - 1] as int].contains(#[trigger] p[i])
}

/// `v` can be reached from `s` by following at most `k` arcs.
pub open spec fn reach(adj: Seq<Seq<usize>>, s: int, v: int, k: nat) -> bool {
    exists|p: Seq<usize>|
        #[trigger] is_walk(adj, p) && 1 <= p.len() <= k + 1 && p[0] == s && p.last() == v
}

/// `v` can be reached from `s` at all.
pub open spec fn reachable(adj: Seq<Seq<usize>>, s: int, v: int) -> bool {
    exists|k: nat| #[trigger] reach(adj, s, v, k)
}

/// The fewest arcs that lead from `s` to `v` are `d`.
pub open spec fn is_distance(adj: Seq<Seq<usize>>, s: int, v: int, d: nat) -> bool {
    &&& reach(adj, s, v, d)
    &&& forall|k: nat| k < d ==> !#[trigger] reach(adj, s, v, k)
}

/// Every node that has a level has all the members of its list with a level too.
pub open spec fn closed(adj: Seq<Seq<usize>>, levels: Seq<usize>) -> bool {
    forall|v: int, m: int|
        0 <= v < levels.len() && levels[v] != unseen() && 0 <= m < adj[v].len() ==> levels[
            #[trigger] adj[v][m] as int] != unseen()
}

/// A node reaches itself without moving.
proof fn lemma_reach_self(adj: Seq<Seq<usize>>, s: usize)
    ensures
        reach(adj, s as int, s as int, 0),
{
    let p = seq![s];
    assert(is_walk(adj, p));
}

/// One more arc after a reached node.
proof fn lemma_reach_step(adj: Seq<Seq<usize>>, s: int, u: int, k: nat, m: int)
    requires
        0 <= u < adj.len(),
        reach(adj, s, u, k),
        0 <= m < adj[u].len(),
    ensures
        reach(adj, s, adj[u][m] as int, k + 1),
{
    let p = choose|p: Seq<usize>|
        #[trigger] is_walk(adj, p) && 1 <= p.len() <= k + 1 && p[0] == s && p.last() == u;
    let w = adj[u][m];
    let q = p.push(w);
    assert(adj[u].contains(w));
    assert forall|i: int| 0 < i < q.len() implies q[i - 1] < adj.len() && adj[q[i - 1] as int].contains(
        #[trigger] q[i],
    ) by {
        if i < p.len() {
            assert(q[i - 1] == p[i - 1] && q[i] == p[i]);
        } else {
            assert(q[i - 1] == p.last());
        }
    }
    assert(is_walk(adj, q));
}

/// A node reached in `k > 0` arcs is reached in fewer, or is on the list of a node reached in
/// fewer.
#[verifier::spinoff_prover]
#[verifier::rlimit(40)]
proof fn lemma_reach_last_arc(adj: Seq<Seq<usize>>, s: int, v: int, k: nat)
    requires
        k > 0,
        reach(adj, s, v, k),
    ensures
        reach(adj, s, v, (k - 1) as nat) || exists|u: int|
            0 <= u < adj.len() && #[trigger] reach(adj, s, u, (k - 1) as nat) && adj[u].contains(
                v as usize,
            ),
{
    let p = choose|p: Seq<usize>|
        #[trigger] is_walk(adj, p) && 1 <= p.len() <= k + 1 && p[0] == s && p.last() == v;
    if p.len() == 1 {
        assert(is_walk(adj, p));
    } else {
        let q = p.drop_last();
        assert forall|i: int| 0 < i < q.len() implies q[i - 1] < adj.len() && adj[q[i - 1] as int].contains(
            #[trigger] q[i],
        ) by {
            assert(q[i - 1] == p[i - 1] && q[i] == p[i]);
        }
        assert(is_walk(adj, q));
        let u = q.last() as int;
        assert(reach(adj, s, u, (k - 1) as nat));
        assert(p[p.len() - 2] == q.last());
        assert(p[p.len() - 1] == v);
        assert(adj[p[p.len() - 2] as int].contains(p[p.len() - 1]));
    }
}

/// The state of a breadth-first search from `r` over the lists `adj` of `n` nodes. `old` are
/// the levels from before the search, whose levelled nodes are closed; `queue` lists, from
/// `rb` on, the nodes the search has reached, in the order it reached them; those before `head`
/// have been expanded, and the one at `head` has had `k` list members looked at.
#[verifier::opaque]
spec fn round_state(
    n: int,
    adj: Seq<Seq<usize>>,
    old: Seq<usize>,
    levels: Seq<usize>,
    queue: Seq<usize>,
    r: int,
    rb: int,
    head: int,
    k: int,
) -> bool {
    &&& 0 <= n < usize::MAX
    &&& lists_below(adj, n)
    &&& old.len() == n
    &&& levels.len() == n
    &&& closed(adj, old)
    &&& forall|v: int| 0 <= v < n && old[v] != unseen() ==> #[trigger] levels[v] == old[v]
    &&& 0 <= rb < queue.len()
    &&& rb <= head <= queue.len()
    &&& head < queue.len() ==> 0 <= k <= adj[queue[head] as int].len()
    &&& head == queue.len() ==> k == 0
    &&& queue[rb] == r
    &&& 0 <= r < n
    &&& old[r] == unseen()
    &&& levels[r] == 0
    &&& forall|i: int|
        rb <= i < queue.len() ==> #[trigger] queue[i] < n && old[queue[i] as int] == unseen()
            && levels[queue[i] as int] != unseen()
    &&& forall|v: int|
        0 <= v < n && old[v] == unseen() && (#[trigger] levels[v]) != unseen() ==> exists|i: int|
            rb <= i < queue.len() && queue[i] == v
    &&& forall|i: int, j: int|
        rb <= i < queue.len() && rb <= j < queue.len() && i != j ==> #[trigger] queue[i]
            != #[trigger] queue[j]
    &&& forall|i: int, j: int|
        rb <= i <= j < queue.len() ==> levels[#[trigger] queue[i] as int] <= levels[
            #[trigger] queue[j] as int]
    &&& head < queue.len() ==> forall|i: int|
        head <= i < queue.len() ==> levels[#[trigger] queue[i] as int] <= levels[
            queue[head] as int] + 1
    &&& forall|i: int| rb <= i < queue.len() ==> levels[#[trigger] queue[i] as int] <= i - rb
    &&& forall|i: int|
        rb <= i < queue.len() ==> reach(adj, r, #[trigger] queue[i] as int, levels[queue[i] as int] as nat)
    &&& forall|i: int, m: int|
        rb <= i < head && 0 <= m < adj[queue[i] as int].len() ==> levels[#[trigger] adj[queue[i] as int][m] as int]
            != unseen() && (old[adj[queue[i] as int][m] as int] == unseen() ==> levels[adj[queue[i] as int][m] as int]
            <= levels[queue[i] as int] + 1)
    &&& head < queue.len() ==> forall|m: int|
        0 <= m < k ==> levels[#[trigger] adj[queue[head] as int][m] as int] != unseen() && (old[adj[queue[head] as int][m] as int]
            == unseen() ==> levels[adj[queue[head] as int][m] as int] <= levels[queue[head] as int] + 1)
}

/// The distinct entries of `queue` from `rb` on, all below `n`, are at most `n`.
proof fn lemma_distinct_tail(queue: Seq<usize>, rb: int, n: int)
    requires
        0 <= rb <= queue.len(),
        0 <= n <= usize::MAX,
        forall|i: int| rb <= i < queue.len() ==> #[trigger] queue[i] < n,
        forall|i: int, j: int|
            rb <= i < queue.len() && rb <= j < queue.len() && i != j ==> #[trigger] queue[i]
                != #[trigger] queue[j],
    ensures
        queue.len() - rb <= n,
{
    let part = queue.subrange(rb, queue.len() as int);
    assert(part.no_duplicates()) by {
        assert forall|i: int, j: int| 0 <= i < part.len() && 0 <= j < part.len() && i != j implies part[i] != part[j] by {
            assert(part[i] == queue[rb + i] && part[j] == queue[rb + j]);
        }
    }
    assert forall|i: int| 0 <= i < part.len() implies part[i] < n by {
        assert(part[i] == queue[rb + i]);
    }
    crate::graph::lemma_distinct_below_len(part, n as usize);
}

/// What a search state says of the shapes and bounds of its parts.
proof fn lemma_round_basics(
    n: int,
    adj: Seq<Seq<usize>>,
    old: Seq<usize>,
    levels: Seq<usize>,
    queue: Seq<usize>,
    r: int,
    rb: int,
    head: int,
    k: int,
)
    requires
        round_state(n, adj, old, levels, queue, r, rb, head, k),
    ensures
        0 <= n < usize::MAX,
        lists_below(adj, n),
        levels.len() == n,
        old.len() == n,
        0 <= rb <= head <= queue.len(),
        rb < queue.len(),
        queue.len() - rb <= n,
        forall|i: int| rb <= i < queue.len() ==> #[trigger] queue[i] < n,
        head < queue.len() ==> 0 <= k <= adj[queue[head] as int].len(),
        head < queue.len() ==> levels[queue[head] as int] < n,
{
    reveal(round_state);
    lemma_distinct_tail(queue, rb, n);
    if head < queue.len() {
        assert(levels[queue[head] as int] <= head - rb);
    }
}

/// A search starts from a node `r` that has no level yet.
proof fn lemma_round_begin(n: int, adj: Seq<Seq<usize>>, old: Seq<usize>, queue: Seq<usize>, r: usize)
    requires
        0 <= n < usize::MAX,
        lists_below(adj, n),
        old.len() == n,
        closed(adj, old),
        r < n,
        old[r as int] == unseen(),
    ensures
        round_state(
            n,
            adj,
            old,
            old.update(r as int, 0),
            queue.push(r),
            r as int,
            queue.len() as int,
            queue.len() as int,
            0,
        ),
{
    reveal(round_state);
    let levels = old.update(r as int, 0);
    let q = queue.push(r);
    let rb = queue.len() as int;
    assert(q[rb] == r);
    lemma_reach_self(adj, r);
    assert forall|v: int|
        0 <= v < n && old[v] == unseen() && (#[trigger] levels[v]) != unseen() implies exists|i: int|
        rb <= i < q.len() && q[i] == v by {
        assert(v == r);
        assert(q[rb] == v);
    }
    assert forall|i: int| rb <= i < q.len() implies reach(adj, r as int, #[trigger] q[i] as int, levels[q[i] as int] as nat) by {
        assert(i == rb);
    }
}

/// The facts that the steps of a discovery share.
spec fn discovery(
    n: int,
    adj: Seq<Seq<usize>>,
    old: Seq<usize>,
    levels: Seq<usize>,
    queue: Seq<usize>,
    r: int,
    rb: int,
    head: int,
    k: int,
    u: int,
    w: usize,
) -> bool {
    &&& round_state(n, adj, old, levels, queue, r, rb, head, k)
    &&& head < queue.len()
    &&& u == queue[head] as int
    &&& k < adj[u].len()
    &&& w == adj[u][k]
    &&& levels[w as int] == unseen()
}

proof fn lemma_discovery_facts(
    n: int,
    adj: Seq<Seq<usize>>,
    old: Seq<usize>,
    levels: Seq<usize>,
    queue: Seq<usize>,
    r: int,
    rb: int,
    head: int,
    k: int,
    u: int,
    w: usize,
)
    requires
        discovery(n, adj, old, levels, queue, r, rb, head, k, u, w),
    ensures
        0 <= u < n,
        w < n,
        old[w as int] == unseen(),
        levels[u] != unseen(),
        levels[u] <= head - rb,
        levels[u] + 1 < usize::MAX,
        forall|i: int| rb <= i < queue.len() ==> queue[i] != w,
        reach(adj, r, w as int, (levels[u] + 1) as nat),
{
    lemma_round_basics(n, adj, old, levels, queue, r, rb, head, k);
    reveal(round_state);
    assert(w < n);
    assert(levels[w as int] == unseen());
    assert(reach(adj, r, queue[head] as int, levels[queue[head] as int] as nat));
    lemma_reach_step(adj, r, u, levels[u] as nat, k);
}

proof fn lemma_discovery_order(
    n: int,
    adj: Seq<Seq<usize>>,
    old: Seq<usize>,
    levels: Seq<usize>,
    queue: Seq<usize>,
    r: int,
    rb: int,
    head: int,
    k: int,
    u: int,
    w: usize,
)
    requires
        discovery(n, adj, old, levels, queue, r, rb, head, k, u, w),
    ensures
        ({
            let levels2 = levels.update(w as int, (levels[u] + 1) as usize);
            let q = queue.push(w);
            &&& forall|i: int|
                rb <= i < q.len() ==> #[trigger] q[i] < n && old[q[i] as int] == unseen()
                    && levels2[q[i] as int] != unseen()
            &&& forall|v: int|
                0 <= v < n && old[v] == unseen() && (#[trigger] levels2[v]) != unseen() ==> exists|i: int|
                    rb <= i < q.len() && q[i] == v
            &&& forall|i: int, j: int|
                rb <= i < q.len() && rb <= j < q.len() && i != j ==> #[trigger] q[i] != #[trigger] q[j]
            &&& forall|i: int, j: int|
                rb <= i <= j < q.len() ==> levels2[#[trigger] q[i] as int] <= levels2[#[trigger] q[j] as int]
            &&& forall|i: int|
                head <= i < q.len() ==> levels2[#[trigger] q[i] as int] <= levels2[q[head] as int] + 1
            &&& forall|i: int| rb <= i < q.len() ==> levels2[#[trigger] q[i] as int] <= i - rb
            &&& forall|i: int|
                rb <= i < q.len() ==> reach(adj, r, #[trigger] q[i] as int, levels2[q[i] as int] as nat)
        }),
{
    lemma_discovery_facts(n, adj, old, levels, queue, r, rb, head, k, u, w);
    reveal(round_state);
    let levels2 = levels.update(w as int, (levels[u] + 1) as usize);
    let q = queue.push(w);
    let last = queue.len() as int;
    assert(q[last] == w);
    assert forall|i: int| rb <= i < queue.len() implies q[i] == queue[i] && levels2[queue[i] as int]
        == levels[queue[i] as int] by {
        assert(queue[i] != w);
    }
    assert(q[head] == queue[head]);
    assert forall|i: int| rb <= i < q.len() implies #[trigger] q[i] < n && old[q[i] as int] == unseen()
        && levels2[q[i] as int] != unseen() by {}
    assert forall|v: int|
        0 <= v < n && old[v] == unseen() && (#[trigger] levels2[v]) != unseen() implies exists|i: int|
        rb <= i < q.len() && q[i] == v by {
        if v != w {
            assert(levels[v] != unseen());
            let i = choose|i: int| rb <= i < queue.len() && queue[i] == v;
            assert(q[i] == v);
        }
    }
    assert forall|i: int, j: int|
        rb <= i < q.len() && rb <= j < q.len() && i != j implies #[trigger] q[i] != #[trigger] q[j] by {
        if i < last && j < last {
            assert(queue[i] != queue[j]);
        }
    }
    assert forall|i: int| head <= i < q.len() implies levels2[#[trigger] q[i] as int] <= levels2[
        q[head] as int] + 1 by {
        if i < last {
            assert(levels[queue[i] as int] <= levels[queue[head] as int] + 1);
        }
    }
    assert forall|i: int, j: int| rb <= i <= j < q.len() implies levels2[#[trigger] q[i] as int]
        <= levels2[#[trigger] q[j] as int] by {
        if j == last {
            if i < last {
                if i >= head {
                    assert(levels[queue[i] as int] <= levels[queue[head] as int] + 1);
                } else {
                    assert(levels[queue[i] as int] <= levels[queue[head] as int]);
                }
            }
        } else {
            assert(levels[queue[i] as int] <= levels[queue[j] as int]);
        }
    }
    assert forall|i: int| rb <= i < q.len() implies levels2[#[trigger] q[i] as int] <= i - rb by {
        if i < last {
            assert(levels[queue[i] as int] <= i - rb);
        }
    }
    assert forall|i: int| rb <= i < q.len() implies reach(adj, r, #[trigger] q[i] as int, levels2[
        q[i] as int] as nat) by {
        if i < last {
            assert(reach(adj, r, queue[i] as int, levels[queue[i] as int] as nat));
        }
    }
}

proof fn lemma_discovery_expanded(
    n: int,
    adj: Seq<Seq<usize>>,
    old: Seq<usize>,
    levels: Seq<usize>,
    queue: Seq<usize>,
    r: int,
    rb: int,
    head: int,
    k: int,
    u: int,
    w: usize,
)
    requires
        discovery(n, adj, old, levels, queue, r, rb, head, k, u, w),
    ensures
        ({
            let levels2 = levels.update(w as int, (levels[u] + 1) as usize);
            let q = queue.push(w);
            &&& forall|i: int, m: int|
                rb <= i < head && 0 <= m < adj[q[i] as int].len() ==> levels2[#[trigger] adj[q[i] as int][m] as int]
                    != unseen() && (old[adj[q[i] as int][m] as int] == unseen() ==> levels2[adj[q[i] as int][m] as int]
                    <= levels2[q[i] as int] + 1)
            &&& forall|m: int|
                0 <= m < k + 1 ==> levels2[#[trigger] adj[q[head] as int][m] as int] != unseen() && (old[adj[q[head] as int][m] as int]
                    == unseen() ==> levels2[adj[q[head] as int][m] as int] <= levels2[q[head] as int] + 1)
        }),
{
    lemma_discovery_facts(n, adj, old, levels, queue, r, rb, head, k, u, w);
    reveal(round_state);
    let levels2 = levels.update(w as int, (levels[u] + 1) as usize);
    let q = queue.push(w);
    assert forall|i: int| rb <= i < queue.len() implies q[i] == queue[i] && levels2[queue[i] as int]
        == levels[queue[i] as int] by {
        assert(queue[i] != w);
    }
    assert forall|i: int, m: int|
        rb <= i < head && 0 <= m < adj[q[i] as int].len() implies levels2[#[trigger] adj[q[i] as int][m] as int]
        != unseen() && (old[adj[q[i] as int][m] as int] == unseen() ==> levels2[adj[q[i] as int][m] as int]
        <= levels2[q[i] as int] + 1) by {
        assert(levels[adj[queue[i] as int][m] as int] != unseen());
    }
    assert forall|m: int| 0 <= m < k + 1 implies levels2[#[trigger] adj[q[head] as int][m] as int]
        != unseen() && (old[adj[q[head] as int][m] as int] == unseen() ==> levels2[adj[q[head] as int][m] as int]
        <= levels2[q[head] as int] + 1) by {
        if m < k {
            assert(levels[adj[queue[head] as int][m] as int] != unseen());
        }
    }
}

/// The node being expanded has its `k`-th list member `w` without a level: `w` gets the next
/// level and joins the queue.
proof fn lemma_round_discover(
    n: int,
    adj: Seq<Seq<usize>>,
    old: Seq<usize>,
    levels: Seq<usize>,
    queue: Seq<usize>,
    r: int,
    rb: int,
    head: int,
    k: int,
)
    requires
        round_state(n, adj, old, levels, queue, r, rb, head, k),
        head < queue.len(),
        k < adj[queue[head] as int].len(),
        levels[adj[queue[head] as int][k] as int] == unseen(),
    ensures
        ({
            let u = queue[head] as int;
            let w = adj[u][k];
            round_state(
                n,
                adj,
                old,
                levels.update(w as int, (levels[u] + 1) as usize),
                queue.push(w),
                r,
                rb,
                head,
                k + 1,
            )
        }),
{
    let u = queue[head] as int;
    let w = adj[u][k];
    lemma_discovery_facts(n, adj, old, levels, queue, r, rb, head, k, u, w);
    lemma_discovery_order(n, adj, old, levels, queue, r, rb, head, k, u, w);
    lemma_discovery_expanded(n, adj, old, levels, queue, r, rb, head, k, u, w);
    reveal(round_state);
    let levels2 = levels.update(w as int, (levels[u] + 1) as usize);
    let q = queue.push(w);
    assert(q[rb] == r);
    assert(q[head] == queue[head]);
    assert(levels2[r] == 0);
    assert(forall|v: int| 0 <= v < n && old[v] != unseen() ==> #[trigger] levels2[v] == old[v]);
}

/// The `k`-th list member of the node being expanded already has a level.
proof fn lemma_round_skip(
    n: int,
    adj: Seq<Seq<usize>>,
    old: Seq<usize>,
    levels: Seq<usize>,
    queue: Seq<usize>,
    r: int,
    rb: int,
    head: int,
    k: int,
)
    requires
        round_state(n, adj, old, levels, queue, r, rb, head, k),
        head < queue.len(),
        k < adj[queue[head] as int].len(),
        levels[adj[queue[head] as int][k] as int] != unseen(),
    ensures
        round_state(n, adj, old, levels, queue, r, rb, head, k + 1),
{
    lemma_round_basics(n, adj, old, levels, queue, r, rb, head, k);
    reveal(round_state);
    let w = adj[queue[head] as int][k];
    if old[w as int] == unseen() {
        assert(w < n);
        let i = choose|i: int| rb <= i < queue.len() && queue[i] == w;
        if i < head {
            assert(levels[queue[i] as int] <= levels[queue[head] as int]);
        } else {
            assert(levels[queue[i] as int] <= levels[queue[head] as int] + 1);
        }
    }
}

/// The node being expanded is done with.
proof fn lemma_round_next(
    n: int,
    adj: Seq<Seq<usize>>,
    old: Seq<usize>,
    levels: Seq<usize>,
    queue: Seq<usize>,
    r: int,
    rb: int,
    head: int,
    k: int,
)
    requires
        round_state(n, adj, old, levels, queue, r, rb, head, k),
        head < queue.len(),
        k == adj[queue[head] as int].len(),
    ensures
        round_state(n, adj, old, levels, queue, r, rb, head + 1, 0),
{
    reveal(round_state);
    assert forall|i: int, m: int|
        rb <= i < head + 1 && 0 <= m < adj[queue[i] as int].len() implies levels[#[trigger] adj[queue[i] as int][m] as int]
        != unseen() && (old[adj[queue[i] as int][m] as int] == unseen() ==> levels[adj[queue[i] as int][m] as int]
        <= levels[queue[i] as int] + 1) by {
        if i == head {
            assert(0 <= m < k);
        }
    }
    if head + 1 < queue.len() {
        assert forall|i: int| head + 1 <= i < queue.len() implies levels[#[trigger] queue[i] as int]
            <= levels[queue[head + 1] as int] + 1 by {
            assert(levels[queue[i] as int] <= levels[queue[head] as int] + 1);
            assert(levels[queue[head] as int] <= levels[queue[head + 1] as int]);
        }
    }
}

proof fn lemma_round_frontier(
    n: int,
    adj: Seq<Seq<usize>>,
    old: Seq<usize>,
    levels: Seq<usize>,
    queue: Seq<usize>,
    r: int,
    rb: int,
    j: nat,
)
    requires
        round_state(n, adj, old, levels, queue, r, rb, queue.len() as int, 0),
    ensures
        forall|q: int|
            0 <= q < n && old[q] == unseen() && #[trigger] reach(adj, r, q, j) ==> levels[q]
                != unseen() && levels[q] <= j,
    decreases j,
{
    lemma_round_basics(n, adj, old, levels, queue, r, rb, queue.len() as int, 0);
    if j > 0 {
        lemma_round_frontier(n, adj, old, levels, queue, r, rb, (j - 1) as nat);
    }
    reveal(round_state);
    assert forall|q: int|
        0 <= q < n && old[q] == unseen() && #[trigger] reach(adj, r, q, j) implies levels[q] != unseen()
        && levels[q] <= j by {
        if j == 0 {
            let p = choose|p: Seq<usize>|
                #[trigger] is_walk(adj, p) && 1 <= p.len() <= j + 1 && p[0] == r && p.last() == q;
            assert(q == r);
        } else {
            lemma_reach_last_arc(adj, r, q, j);
            if !reach(adj, r, q, (j - 1) as nat) {
                let u = choose|u: int|
                    0 <= u < adj.len() && #[trigger] reach(adj, r, u, (j - 1) as nat) && adj[u].contains(
                        q as usize,
                    );
                let m = choose|m: int| 0 <= m < adj[u].len() && adj[u][m] == q as usize;
                if old[u] != unseen() {
                    assert(old[adj[u][m] as int] != unseen());
                } else {
                    assert(levels[u] != unseen());
                    let i = choose|i: int| rb <= i < queue.len() && queue[i] == u;
                    assert(levels[adj[queue[i] as int][m] as int] <= levels[queue[i] as int] + 1);
                }
            }
        }
    }
}

/// A finished search: the nodes that had no level before and can be reached from `r` now have
/// their distance from `r` as level, in the order the queue lists them; no other node changed.
proof fn lemma_round_end(
    n: int,
    adj: Seq<Seq<usize>>,
    old: Seq<usize>,
    levels: Seq<usize>,
    queue: Seq<usize>,
    r: int,
    rb: int,
)
    requires
        round_state(n, adj, old, levels, queue, r, rb, queue.len() as int, 0),
    ensures
        levels.len() == n,
        rb < queue.len(),
        queue[rb] == r,
        closed(adj, levels),
        forall|v: int| 0 <= v < n && old[v] != unseen() ==> #[trigger] levels[v] == old[v],
        forall|v: int|
            0 <= v < n && old[v] == unseen() ==> ((#[trigger] levels[v]) != unseen() <==> reachable(
                adj,
                r,
                v,
            )),
        forall|v: int|
            0 <= v < n && old[v] == unseen() && (#[trigger] levels[v]) != unseen() ==> is_distance(
                adj,
                r,
                v,
                levels[v] as nat,
            ),
        forall|i: int|
            rb <= i < queue.len() ==> #[trigger] queue[i] < n && old[queue[i] as int] == unseen()
                && levels[queue[i] as int] != unseen(),
        forall|v: int|
            0 <= v < n && old[v] == unseen() && (#[trigger] levels[v]) != unseen() ==> exists|i: int|
                rb <= i < queue.len() && queue[i] == v,
        forall|i: int, j: int|
            rb <= i < queue.len() && rb <= j < queue.len() && i != j ==> #[trigger] queue[i]
                != #[trigger] queue[j],
        forall|i: int, j: int|
            rb <= i <= j < queue.len() ==> levels[#[trigger] queue[i] as int] <= levels[
                #[trigger] queue[j] as int],
        forall|v: int| 0 <= v < n && old[v] == unseen() && (#[trigger] levels[v]) != unseen() ==> levels[v] < n,
{
    lemma_round_basics(n, adj, old, levels, queue, r, rb, queue.len() as int, 0);
    reveal(round_state);
    assert forall|v: int| 0 <= v < n && old[v] == unseen() && (#[trigger] levels[v]) != unseen() implies levels[v] < n by {
        let i = choose|i: int| rb <= i < queue.len() && queue[i] == v;
        assert(levels[queue[i] as int] <= i - rb);
    }
    assert forall|v: int|
        0 <= v < n && old[v] == unseen() && (#[trigger] levels[v]) != unseen() implies reach(
        adj,
        r,
        v,
        levels[v] as nat,
    ) by {
        let i = choose|i: int| rb <= i < queue.len() && queue[i] == v;
        assert(reach(adj, r, queue[i] as int, levels[queue[i] as int] as nat));
    }
    assert forall|v: int|
        0 <= v < n && old[v] == unseen() implies ((#[trigger] levels[v]) != unseen() <==> reachable(
        adj,
        r,
        v,
    )) by {
        if levels[v] != unseen() {
            assert(reach(adj, r, v, levels[v] as nat));
        }
        if reachable(adj, r, v) {
            let k = choose|k: nat| #[trigger] reach(adj, r, v, k);
            lemma_round_frontier(n, adj, old, levels, queue, r, rb, k);
        }
    }
    assert forall|v: int|
        0 <= v < n && old[v] == unseen() && (#[trigger] levels[v]) != unseen() implies is_distance(
        adj,
        r,
        v,
        levels[v] as nat,
    ) by {
        assert forall|k: nat| k < levels[v] as nat implies !#[trigger] reach(adj, r, v, k) by {
            lemma_round_frontier(n, adj, old, levels, queue, r, rb, k);
        }
    }
    assert forall|v: int, m: int|
        0 <= v < levels.len() && levels[v] != unseen() && 0 <= m < adj[v].len() implies levels[
        #[trigger] adj[v][m] as int] != unseen() by {
        if old[v] != unseen() {
            assert(old[adj[v][m] as int] != unseen());
            assert(levels[adj[v][m] as int] == old[adj[v][m] as int]);
        } else {
            let i = choose|i: int| rb <= i < queue.len() && queue[i] == v;
            assert(levels[adj[queue[i] as int][m] as int] != unseen());
        }
    }
}

/// What a finished search from `r` leaves: `old` and `levels` are the levels before and after,
/// `queue` from `rb` on lists the newly reached nodes in the order they were reached.
pub open spec fn search_done(
    n: int,
    adj: Seq<Seq<usize>>,
    old: Seq<usize>,
    levels: Seq<usize>,
    queue: Seq<usize>,
    r: int,
    rb: int,
) -> bool {
    &&& levels.len() == n
    &&& 0 <= rb < queue.len()
    &&& queue[rb] == r
    &&& closed(adj, levels)
    &&& forall|v: int| 0 <= v < n && old[v] != unseen() ==> #[trigger] levels[v] == old[v]
    &&& forall|v: int|
        0 <= v < n && old[v] == unseen() ==> ((#[trigger] levels[v]) != unseen() <==> reachable(
            adj,
            r,
            v,
        ))
    &&& forall|v: int|
        0 <= v < n && old[v] == unseen() && (#[trigger] levels[v]) != unseen() ==> is_distance(
            adj,
            r,
            v,
            levels[v] as nat,
        )
    &&& forall|i: int|
        rb <= i < queue.len() ==> #[trigger] queue[i] < n && old[queue[i] as int] == unseen()
            && levels[queue[i] as int] != unseen()
    &&& forall|v: int|
        0 <= v < n && old[v] == unseen() && (#[trigger] levels[v]) != unseen() ==> exists|i: int|
            rb <= i < queue.len() && queue[i] == v
    &&& forall|i: int, j: int|
        rb <= i < queue.len() && rb <= j < queue.len() && i != j ==> #[trigger] queue[i]
            != #[trigger] queue[j]
    &&& forall|i: int, j: int|
        rb <= i <= j < queue.len() ==> levels[#[trigger] queue[i] as int] <= levels[
            #[trigger] queue[j] as int]
    &&& forall|v: int| 0 <= v < n && old[v] == unseen() && (#[trigger] levels[v]) != unseen() ==> levels[v] < n
}

/// Searches breadth first from `start`, which has no level yet, over the lists `adj`: every node
/// without a level that `start` reaches gets its distance from `start` as level and is appended
/// to `order`, in the order the search reaches it. Nodes that had a level keep it.
pub fn breadth_first(
    adj: &[Vec<usize>],
    start: usize,
    levels: &mut Vec<usize>,
    order: &mut Vec<usize>,
)
    requires
        old(levels).len() < usize::MAX,
        lists_below(adj.deep_view(), old(levels).len() as int),
        closed(adj.deep_view(), old(levels)@),
        start < old(levels).len(),
        old(levels)@[start as int] == unseen(),
    ensures
        final(order)@.len() > old(order)@.len(),
        final(order)@.subrange(0, old(order)@.len() as int) == old(order)@,
        final(order)@.subrange(old(order)@.len() as int, final(order)@.len() as int) == search_queue(
            adj.deep_view(),
            marked(old(levels)@).update(start as int, true),
            seq![start],
            0,
            (old(levels).len() + 1) as nat,
        ),
        search_done(
            old(levels).len() as int,
            adj.deep_view(),
            old(levels)@,
            final(levels)@,
            final(order)@,
            start as int,
            old(order)@.len() as int,
        ),
{
    let ghost n = levels.len() as int;
    let ghost lists = adj.deep_view();
    let ghost before = levels@;
    let ghost prefix = order@;
    let rb = order.len();
    proof {
        lemma_round_begin(n, lists, before, order@, start);
    }
    levels.set(start, 0);
    order.push(start);
    let ghost fuel = (n + 1) as nat;
    let ghost target = search_queue(lists, marked(before).update(start as int, true), seq![start], 0, fuel);
    proof {
        assert(marked(levels@) =~= marked(before).update(start as int, true));
        assert(order@.subrange(rb as int, order@.len() as int) =~= seq![start]);
    }
    let mut head: usize = rb;
    while head < order.len()
        invariant
            n == levels.len(),
            lists == adj.deep_view(),
            adj.len() == n,
            rb == prefix.len(),
            order@.subrange(0, rb as int) == prefix,
            round_state(n, lists, before, levels@, order@, start as int, rb as int, head as int, 0),
            fuel == n + 1,
            search_queue(
                lists,
                marked(levels@),
                order@.subrange(rb as int, order@.len() as int),
                head - rb,
                (fuel - (head - rb)) as nat,
            ) == target,
        decreases n - (head - rb),
    {
        proof {
            lemma_round_basics(n, lists, before, levels@, order@, start as int, rb as int, head as int, 0);
        }
        let ghost q0 = order@;
        let ghost m0 = marked(levels@);
        let node = order[head];
        let level = levels[node];
        let mut k: usize = 0;
        proof {
            assert(lists[node as int].take(0) =~= Seq::<usize>::empty());
            assert(q0 + scan(lists[node as int].take(0), m0).0 =~= q0);
        }
        while k < adj[node].len()
            invariant
                n == levels.len(),
                lists == adj.deep_view(),
                adj.len() == n,
                rb == prefix.len(),
                order@.subrange(0, rb as int) == prefix,
                head < order.len(),
                node == order@[head as int],
                node < n,
                level == levels@[node as int],
                level < n,
                k <= lists[node as int].len(),
                round_state(n, lists, before, levels@, order@, start as int, rb as int, head as int, k as int),
                order@ == q0 + scan(lists[node as int].take(k as int), m0).0,
                marked(levels@) == scan(lists[node as int].take(k as int), m0).1,
            decreases lists[node as int].len() - k,
        {
            proof {
                lemma_round_basics(n, lists, before, levels@, order@, start as int, rb as int, head as int, k as int);
                assert(adj[node as int]@ == lists[node as int]);
                assert(lists[node as int].take(k + 1).drop_last() =~= lists[node as int].take(k as int));
            }
            let next = adj[node][k];
            proof {
                assert(lists[node as int].take(k + 1).last() == next);
                assert(marked(levels@)[next as int] == (levels@[next as int] != unseen()));
            }
            if levels[next] == usize::MAX {
                proof {
                    lemma_round_discover(n, lists, before, levels@, order@, start as int, rb as int, head as int, k as int);
                }
                let ghost marks_before = marked(levels@);
                levels.set(next, level + 1);
                order.push(next);
                proof {
                    assert(order@.subrange(0, rb as int) =~= order@.drop_last().subrange(0, rb as int));
                    lemma_round_basics(n, lists, before, levels@, order@, start as int, rb as int, head as int, k + 1);
                    assert(marked(levels@) =~= marks_before.update(next as int, true));
                    assert(order@ =~= q0 + scan(lists[node as int].take(k + 1), m0).0);
                }
            } else {
                proof {
                    lemma_round_skip(n, lists, before, levels@, order@, start as int, rb as int, head as int, k as int);
                }
            }
            k = k + 1;
        }
        proof {
            lemma_round_next(n, lists, before, levels@, order@, start as int, rb as int, head as int, k as int);
            lemma_round_basics(n, lists, before, levels@, order@, start as int, rb as int, head + 1, 0);
            assert(lists[node as int].take(k as int) =~= lists[node as int]);
            let qs = q0.subrange(rb as int, q0.len() as int);
            assert(qs[head - rb] == node);
            let (added, marks) = scan(lists[node as int], m0);
            assert(order@.subrange(rb as int, order@.len() as int) =~= qs + added);
        }
        head = head + 1;
    }
    proof {
        lemma_round_basics(n, lists, before, levels@, order@, start as int, rb as int, head as int, 0);
        lemma_round_end(n, lists, before, levels@, order@, start as int, rb as int);
    }
}

} // verus!

verus! {

/// Nodes that reach `v` through a closed set of levelled nodes from a levelled node are levelled.
proof fn lemma_closed_reach(adj: Seq<Seq<usize>>, levels: Seq<usize>, s: int, v: int, k: nat)
    requires
        lists_below(adj, levels.len() as int),
        closed(adj, levels),
        0 <= s < levels.len(),
        levels[s] != unseen(),
        reach(adj, s, v, k),
    ensures
        0 <= v < levels.len(),
        levels[v] != unseen(),
    decreases k,
{
    if k == 0 {
        let p = choose|p: Seq<usize>|
            #[trigger] is_walk(adj, p) && 1 <= p.len() <= k + 1 && p[0] == s && p.last() == v;
    } else {
        lemma_reach_last_arc(adj, s, v, k);
        if reach(adj, s, v, (k - 1) as nat) {
            lemma_closed_reach(adj, levels, s, v, (k - 1) as nat);
        } else {
            let u = choose|u: int|
                0 <= u < adj.len() && #[trigger] reach(adj, s, u, (k - 1) as nat) && adj[u].contains(
                    v as usize,
                );
            lemma_closed_reach(adj, levels, s, u, (k - 1) as nat);
            let m = choose|m: int| 0 <= m < adj[u].len() && adj[u][m] == v as usize;
            assert(adj[u][m] < levels.len());
        }
    }
}

/// Distances are unique.
pub(crate) proof fn lemma_distance_unique(adj: Seq<Seq<usize>>, s: int, v: int, d1: nat, d2: nat)
    requires
        is_distance(adj, s, v, d1),
        is_distance(adj, s, v, d2),
    ensures
        d1 == d2,
{
    if d1 < d2 {
        assert(!reach(adj, s, v, d1));
    } else if d2 < d1 {
        assert(!reach(adj, s, v, d2));
    }
}

/// `u` is the smallest node from which `v` can be reached.
pub open spec fn is_first_source(adj: Seq<Seq<usize>>, u: int, v: int) -> bool {
    &&& 0 <= u
    &&& reachable(adj, u, v)
    &&& forall|w: int| 0 <= w < u ==> !#[trigger] reachable(adj, w, v)
}

/// The levels after the searches from the nodes below `start`: the nodes those searches
/// reach, and only they, are levelled, each with its distance from the smallest node reaching it.
spec fn levels_so_far(adj: Seq<Seq<usize>>, n: int, levels: Seq<usize>, start: int) -> bool {
    &&& 0 <= start <= n
    &&& n < usize::MAX
    &&& lists_below(adj, n)
    &&& levels.len() == n
    &&& closed(adj, levels)
    &&& forall|v: int| 0 <= v < n && (#[trigger] levels[v]) != unseen() ==> levels[v] < n
    &&& forall|v: int| 0 <= v < start ==> (#[trigger] levels[v]) != unseen()
    &&& forall|v: int|
        0 <= v < n ==> ((#[trigger] levels[v]) != unseen() <==> exists|u: int|
            0 <= u < start && #[trigger] reachable(adj, u, v))
    &&& forall|v: int|
        0 <= v < n && (#[trigger] levels[v]) != unseen() ==> exists|u: int|
            is_first_source(adj, u, v) && #[trigger] is_distance(adj, u, v, levels[v] as nat)
}

proof fn lemma_levels_skip(adj: Seq<Seq<usize>>, n: int, levels: Seq<usize>, start: int)
    requires
        levels_so_far(adj, n, levels, start),
        start < n,
        levels[start] != unseen(),
    ensures
        levels_so_far(adj, n, levels, start + 1),
{
    assert forall|v: int| 0 <= v < n implies ((#[trigger] levels[v]) != unseen() <==> exists|u: int|
        0 <= u < start + 1 && #[trigger] reachable(adj, u, v)) by {
        if reachable(adj, start, v) {
            let k = choose|k: nat| #[trigger] reach(adj, start, v, k);
            lemma_closed_reach(adj, levels, start, v, k);
        }
        if levels[v] != unseen() {
            let u = choose|u: int| 0 <= u < start && #[trigger] reachable(adj, u, v);
            assert(0 <= u < start + 1 && reachable(adj, u, v));
        }
    }
}

proof fn lemma_levels_round(
    adj: Seq<Seq<usize>>,
    n: int,
    before: Seq<usize>,
    levels: Seq<usize>,
    order: Seq<usize>,
    start: int,
    rb: int,
)
    requires
        levels_so_far(adj, n, before, start),
        start < n,
        before[start] == unseen(),
        search_done(n, adj, before, levels, order, start, rb),
    ensures
        levels_so_far(adj, n, levels, start + 1),
{
    assert forall|v: int| 0 <= v < n implies ((#[trigger] levels[v]) != unseen() <==> exists|u: int|
        0 <= u < start + 1 && #[trigger] reachable(adj, u, v)) by {
        if before[v] != unseen() {
            let u = choose|u: int| 0 <= u < start && #[trigger] reachable(adj, u, v);
            assert(0 <= u < start + 1 && reachable(adj, u, v));
        } else if levels[v] != unseen() {
            assert(reachable(adj, start, v));
        } else if exists|u: int| 0 <= u < start + 1 && #[trigger] reachable(adj, u, v) {
            let u = choose|u: int| 0 <= u < start + 1 && #[trigger] reachable(adj, u, v);
            if u < start {
                assert(before[v] != unseen());
            }
        }
    }
    assert forall|v: int|
        0 <= v < n && (#[trigger] levels[v]) != unseen() implies exists|u: int|
        is_first_source(adj, u, v) && #[trigger] is_distance(adj, u, v, levels[v] as nat) by {
        if before[v] == unseen() {
            assert(is_distance(adj, start, v, levels[v] as nat));
            assert forall|w: int| 0 <= w < start implies !#[trigger] reachable(adj, w, v) by {
                if reachable(adj, w, v) {
                    assert(exists|u: int| 0 <= u < start && #[trigger] reachable(adj, u, v));
                }
            }
            assert(is_first_source(adj, start, v));
        } else {
            assert(levels[v] == before[v]);
        }
    }
    assert forall|v: int| 0 <= v < start + 1 implies (#[trigger] levels[v]) != unseen() by {
        if v == start {
            lemma_reach_self(adj, start as usize);
            assert(reachable(adj, start, start));
        } else if before[v] != unseen() {
            assert(levels[v] == before[v]);
        }
    }
}

/// `d` is the distance to `v` from the smallest node that reaches `v`.
pub open spec fn level_from_first_source(adj: Seq<Seq<usize>>, v: int, d: nat) -> bool {
    exists|u: int| is_first_source(adj, u, v) && #[trigger] is_distance(adj, u, v, d)
}

/// Gives every node its distance from the smallest node that reaches it, searching breadth
/// first from each node, in increasing order, that no earlier search reached.
pub fn graph_levels(adjacency: &[Vec<usize>]) -> (levels: Vec<usize>)
    requires
        adjacency.len() < usize::MAX,
        lists_below(adjacency.deep_view(), adjacency.len() as int),
    ensures
        levels.len() == adjacency.len(),
        forall|v: int| 0 <= v < levels.len() ==> #[trigger] levels@[v] < levels.len(),
        forall|v: int|
            0 <= v < levels.len() ==> level_from_first_source(
                adjacency.deep_view(),
                v,
                #[trigger] levels@[v] as nat,
            ),
{
    let n = adjacency.len();
    let ghost adj = adjacency.deep_view();
    let mut levels: Vec<usize> = Vec::new();
    while levels.len() < n
        invariant
            levels.len() <= n,
            forall|v: int| 0 <= v < levels.len() ==> levels@[v] == unseen(),
        decreases n - levels.len(),
    {
        levels.push(usize::MAX);
    }
    let mut order: Vec<usize> = Vec::new();
    let mut start: usize = 0;
    while start < n
        invariant
            n == adjacency.len(),
            adj == adjacency.deep_view(),
            levels_so_far(adj, n as int, levels@, start as int),
        decreases n - start,
    {
        if levels[start] != usize::MAX {
            proof {
                lemma_levels_skip(adj, n as int, levels@, start as int);
            }
            start = start + 1;
            continue;
        }
        let ghost before = levels@;
        let ghost rb = order@.len() as int;
        breadth_first(adjacency, start, &mut levels, &mut order);
        proof {
            lemma_levels_round(adj, n as int, before, levels@, order@, start as int, rb);
        }
        start = start + 1;
    }
    assert forall|v: int| 0 <= v < levels.len() implies level_from_first_source(
        adj,
        v,
        #[trigger] levels@[v] as nat,
    ) by {
        assert(levels@[v] != unseen());
    }
    levels
}

/// The lists run both ways: `w` is on the list of `v` exactly when `v` is on the list of `w`.
pub open spec fn symmetric_lists(adj: Seq<Seq<usize>>) -> bool {
    forall|v: usize, w: usize|
        v < adj.len() && w < adj.len() ==> (#[trigger] adj[v as int].contains(w) <==> #[trigger] adj[w as int].contains(v))
}

/// Along lists that run both ways, the levels of two neighbours differ by at most one: both
/// are measured from the same first source, and one more arc leads from each to the other.
pub proof fn lemma_neighbor_levels_close(adj: Seq<Seq<usize>>, v: int, w: int, dv: nat, dw: nat)
    requires
        symmetric_lists(adj),
        0 <= v < adj.len(),
        0 <= w < adj.len(),
        adj[v].contains(w as usize),
        level_from_first_source(adj, v, dv),
        level_from_first_source(adj, w, dw),
    ensures
        dw <= dv + 1,
        dv <= dw + 1,
{
    let u = choose|u: int| is_first_source(adj, u, v) && #[trigger] is_distance(adj, u, v, dv);
    let x = choose|x: int| is_first_source(adj, x, w) && #[trigger] is_distance(adj, x, w, dw);
    assert(adj[w].contains(v as usize));
    let m = choose|m: int| 0 <= m < adj[v].len() && adj[v][m] == w as usize;
    let l = choose|l: int| 0 <= l < adj[w].len() && adj[w][l] == v as usize;
    lemma_reach_step(adj, u, v, dv, m);
    lemma_reach_step(adj, x, w, dw, l);
    let kv = choose|k: nat| #[trigger] reach(adj, u, v, k);
    let kw = choose|k: nat| #[trigger] reach(adj, x, w, k);
    lemma_reach_step(adj, u, v, kv, m);
    lemma_reach_step(adj, x, w, kw, l);
    assert(reachable(adj, u, w));
    assert(reachable(adj, x, v));
    if u < x {
        assert(!reachable(adj, u, w));
    }
    if x < u {
        assert(!reachable(adj, x, v));
    }
    assert(u == x);
    if dw > dv + 1 {
        assert(!reach(adj, u, w, dv + 1));
    }
    if dv > dw + 1 {
        assert(!reach(adj, u, v, dw + 1));
    }
}

} // verus!

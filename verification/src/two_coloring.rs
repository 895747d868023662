use vstd::prelude::*;

use crate::graph::{endpoints_below, is_adjacency_of, lemma_neighbors_below, lemma_neighbors_contains, linked};

verus! {

/// `color` gives the two endpoints of every edge different colours.
pub open spec fn proper_two_coloring(edges: Seq<(usize, usize)>, color: Seq<bool>) -> bool {
    forall|i: int| 0 <= i < edges.len() ==> color[edges[i].0 as int] != color[edges[i].1 as int]
}

/// The `n` nodes can be split in two sides so that every edge runs between the sides.
pub open spec fn two_colorable(n: int, edges: Seq<(usize, usize)>) -> bool {
    exists|color: Seq<bool>| color.len() == n && #[trigger] proper_two_coloring(edges, color)
}

/// In the proper colouring `c`, each coloured node has the colour of the first node of its
/// search round exactly when the search gave it `false`.
pub open spec fn agrees_with(c: Seq<bool>, color: Seq<Option<bool>>, root: Seq<int>) -> bool {
    forall|v: int|
        0 <= v < color.len() && (#[trigger] color[v]) is Some ==> (c[v] == c[root[v]]) == (color[v]
            == Some(false))
}

/// The state of a breadth-first two-colouring of the `n` nodes joined by `es`, whose neighbour
/// lists are `lists`: the nodes coloured so far, in the order they were queued, where the
/// first `done` of them have been expanded and the next one has had `k` of its neighbours
/// looked at.
#[verifier::opaque]
pub open spec fn search_state(
    n: int,
    es: Seq<(usize, usize)>,
    lists: Seq<Seq<usize>>,
    color: Seq<Option<bool>>,
    root: Seq<int>,
    queue: Seq<usize>,
    done: int,
    k: int,
) -> bool {
    &&& 0 <= n <= usize::MAX
    &&& is_adjacency_of(lists, n, es)
    &&& endpoints_below(es, n)
    &&& color.len() == n
    &&& root.len() == n
    &&& 0 <= done <= queue.len()
    &&& queue.no_duplicates()
    &&& forall|j: int| 0 <= j < queue.len() ==> #[trigger] queue[j] < n
    &&& forall|v: int| 0 <= v < n ==> ((#[trigger] color[v]) is Some <==> queue.contains(v as usize))
    &&& forall|v: int|
        0 <= v < n && color[v] is Some ==> 0 <= #[trigger] root[v] < n && color[root[v]] == Some(
            false,
        )
    &&& forall|j: int, m: int|
        0 <= j < done && 0 <= m < lists[queue[j] as int].len() ==> color[#[trigger] lists[queue[j] as int][m] as int]
            == Some(!color[queue[j] as int]->0)
    &&& done < queue.len() ==> 0 <= k <= lists[queue[done] as int].len() && forall|m: int|
        0 <= m < k ==> color[#[trigger] lists[queue[done] as int][m] as int] == Some(
            !color[queue[done] as int]->0,
        )
    &&& done == queue.len() ==> k == 0
    &&& forall|j1: int, j2: int|
        done <= j1 < queue.len() && done <= j2 < queue.len() ==> root[#[trigger] queue[j1] as int]
            == root[#[trigger] queue[j2] as int]
    &&& forall|c: Seq<bool>|
        c.len() == n && #[trigger] proper_two_coloring(es, c) ==> agrees_with(c, color, root)
}

/// What a search state says of the shapes and bounds of its parts.
pub(crate) proof fn lemma_state_basics(
    n: int,
    es: Seq<(usize, usize)>,
    lists: Seq<Seq<usize>>,
    color: Seq<Option<bool>>,
    root: Seq<int>,
    queue: Seq<usize>,
    done: int,
    k: int,
)
    requires
        search_state(n, es, lists, color, root, queue, done, k),
    ensures
        color.len() == n,
        lists.len() == n,
        0 <= done <= queue.len(),
        queue.len() <= n,
        forall|j: int| 0 <= j < queue.len() ==> #[trigger] queue[j] < n,
        forall|v: int| 0 <= v < n ==> ((#[trigger] color[v]) is Some <==> queue.contains(v as usize)),
        forall|v: int, m: int|
            0 <= v < n && 0 <= m < lists[v].len() ==> #[trigger] lists[v][m] < n,
        done < queue.len() ==> 0 <= k <= lists[queue[done] as int].len(),
        done < queue.len() ==> color[queue[done] as int] is Some,
{
    reveal(search_state);
    assert forall|v: int, m: int| 0 <= v < n && 0 <= m < lists[v].len() implies #[trigger] lists[v][m] < n by {
        lemma_neighbors_below(es, v, n);
    }
    if done < queue.len() {
        assert(queue.contains(queue[done]));
    }
    crate::graph::lemma_distinct_below_len(queue, n as usize);
}

/// Before any node is coloured.
pub(crate) proof fn lemma_initial(n: int, es: Seq<(usize, usize)>, lists: Seq<Seq<usize>>, root: Seq<int>)
    requires
        is_adjacency_of(lists, n, es),
        endpoints_below(es, n),
        root.len() == n,
        0 <= n <= usize::MAX,
    ensures
        search_state(n, es, lists, Seq::new(n as nat, |v: int| None), root, Seq::empty(), 0, 0),
{
    reveal(search_state);
}

/// A new round starts from an uncoloured node `s`, which gets `false`.
pub(crate) proof fn lemma_begin_round(
    n: int,
    es: Seq<(usize, usize)>,
    lists: Seq<Seq<usize>>,
    color: Seq<Option<bool>>,
    root: Seq<int>,
    queue: Seq<usize>,
    s: usize,
)
    requires
        search_state(n, es, lists, color, root, queue, queue.len() as int, 0),
        s < n,
        color[s as int] is None,
    ensures
        search_state(
            n,
            es,
            lists,
            color.update(s as int, Some(false)),
            root.update(s as int, s as int),
            queue.push(s),
            queue.len() as int,
            0,
        ),
{
    lemma_state_basics(n, es, lists, color, root, queue, queue.len() as int, 0);
    reveal(search_state);
    broadcast use vstd::seq_lib::lemma_seq_contains_after_push;

    let color2 = color.update(s as int, Some(false));
    let root2 = root.update(s as int, s as int);
    let queue2 = queue.push(s);
    let done = queue.len() as int;
    assert forall|v: int| 0 <= v < n && color2[v] is Some implies 0 <= #[trigger] root2[v] < n
        && color2[root2[v]] == Some(false) by {
        if v != s {
            assert(color[v] is Some);
            assert(0 <= root[v] < n);
            if root[v] == s {
                assert(color[s as int] is Some);
            }
        }
    }
    assert forall|j: int, m: int|
        0 <= j < done && 0 <= m < lists[queue2[j] as int].len() implies color2[#[trigger] lists[queue2[j] as int][m] as int]
        == Some(!color2[queue2[j] as int]->0) by {
        assert(queue2[j] == queue[j]);
        assert(color[lists[queue[j] as int][m] as int] is Some);
        assert(queue.contains(queue[j]));
        assert(color[queue[j] as int] is Some);
    }
    assert forall|j1: int, j2: int|
        done <= j1 < queue2.len() && done <= j2 < queue2.len() implies root2[#[trigger] queue2[j1] as int]
        == root2[#[trigger] queue2[j2] as int] by {}
    assert forall|v: int| 0 <= v < n implies ((#[trigger] color2[v]) is Some <==> queue2.contains(v as usize)) by {
        assert(queue2.contains(v as usize) <==> (s == v as usize || queue.contains(v as usize)));
    }
    assert forall|j: int| 0 <= j < queue2.len() implies #[trigger] queue2[j] < n by {
        if j < queue.len() {
            assert(queue2[j] == queue[j]);
        }
    }
    assert(queue2[done] == s);
    assert(queue2.no_duplicates()) by {
        assert(!queue.contains(s));
        assert forall|i: int, j: int| 0 <= i < queue2.len() && 0 <= j < queue2.len() && i != j implies queue2[i] != queue2[j] by {
            if i < queue.len() && j < queue.len() {
                assert(queue2[i] == queue[i] && queue2[j] == queue[j]);
            } else if i < queue.len() {
                assert(queue2[i] == queue[i]);
                assert(queue.contains(queue[i]));
            } else if j < queue.len() {
                assert(queue2[j] == queue[j]);
                assert(queue.contains(queue[j]));
            }
        }
    }
    assert forall|c: Seq<bool>| c.len() == n && #[trigger] proper_two_coloring(es, c) implies agrees_with(c, color2, root2) by {
        assert(agrees_with(c, color, root));
        assert forall|v: int| 0 <= v < color2.len() && (#[trigger] color2[v]) is Some implies (c[v] == c[root2[v]]) == (color2[v] == Some(false)) by {
            if v != s {
                assert(color[v] is Some);
                if root[v] == s {
                    assert(color[s as int] is Some);
                }
            }
        }
    }
}

/// The facts that the steps of `lemma_color_neighbor` share.
spec fn neighbor_step(
    n: int,
    es: Seq<(usize, usize)>,
    lists: Seq<Seq<usize>>,
    color: Seq<Option<bool>>,
    root: Seq<int>,
    queue: Seq<usize>,
    done: int,
    k: int,
    u: int,
    w: usize,
) -> bool {
    &&& search_state(n, es, lists, color, root, queue, done, k)
    &&& done < queue.len()
    &&& u == queue[done] as int
    &&& k < lists[u].len()
    &&& w == lists[u][k]
    &&& color[w as int] is None
}

proof fn lemma_step_facts(
    n: int,
    es: Seq<(usize, usize)>,
    lists: Seq<Seq<usize>>,
    color: Seq<Option<bool>>,
    root: Seq<int>,
    queue: Seq<usize>,
    done: int,
    k: int,
    u: int,
    w: usize,
)
    requires
        neighbor_step(n, es, lists, color, root, queue, done, k, u, w),
    ensures
        0 <= u < n,
        w < n,
        w != u,
        color[u] is Some,
        !queue.contains(w),
        linked(es, u, w as int),
        0 <= root[u] < n,
        root[u] != w,
{
    lemma_state_basics(n, es, lists, color, root, queue, done, k);
    reveal(search_state);
    assert(lists[u] == crate::graph::neighbors(es, u));
    lemma_neighbors_contains(es, u, w);
    assert(lists[u].contains(w));
    if root[u] == w {
        assert(color[root[u]] == Some(false));
    }
}

proof fn lemma_step_roots(
    n: int,
    es: Seq<(usize, usize)>,
    lists: Seq<Seq<usize>>,
    color: Seq<Option<bool>>,
    root: Seq<int>,
    queue: Seq<usize>,
    done: int,
    k: int,
    u: int,
    w: usize,
)
    requires
        neighbor_step(n, es, lists, color, root, queue, done, k, u, w),
    ensures
        ({
            let color2 = color.update(w as int, Some(!color[u]->0));
            let root2 = root.update(w as int, root[u]);
            forall|v: int|
                0 <= v < n && color2[v] is Some ==> 0 <= #[trigger] root2[v] < n && color2[root2[v]]
                    == Some(false)
        }),
{
    lemma_step_facts(n, es, lists, color, root, queue, done, k, u, w);
    reveal(search_state);
    let color2 = color.update(w as int, Some(!color[u]->0));
    let root2 = root.update(w as int, root[u]);
    assert forall|v: int| 0 <= v < n && color2[v] is Some implies 0 <= #[trigger] root2[v] < n
        && color2[root2[v]] == Some(false) by {
        if v != w {
            assert(color[v] is Some);
            assert(0 <= root[v] < n);
            if root[v] == w {
                assert(color[w as int] is Some);
            }
        }
    }
}

proof fn lemma_step_queue(
    n: int,
    es: Seq<(usize, usize)>,
    lists: Seq<Seq<usize>>,
    color: Seq<Option<bool>>,
    root: Seq<int>,
    queue: Seq<usize>,
    done: int,
    k: int,
    u: int,
    w: usize,
)
    requires
        neighbor_step(n, es, lists, color, root, queue, done, k, u, w),
    ensures
        ({
            let color2 = color.update(w as int, Some(!color[u]->0));
            let queue2 = queue.push(w);
            &&& forall|j: int| 0 <= j < queue2.len() ==> #[trigger] queue2[j] < n
            &&& forall|v: int|
                0 <= v < n ==> ((#[trigger] color2[v]) is Some <==> queue2.contains(v as usize))
        }),
{
    lemma_step_facts(n, es, lists, color, root, queue, done, k, u, w);
    reveal(search_state);
    broadcast use vstd::seq_lib::lemma_seq_contains_after_push;

    let color2 = color.update(w as int, Some(!color[u]->0));
    let queue2 = queue.push(w);
    assert forall|j: int| 0 <= j < queue2.len() implies #[trigger] queue2[j] < n by {
        if j < queue.len() {
            assert(queue2[j] == queue[j]);
        }
    }
    assert forall|v: int| 0 <= v < n implies ((#[trigger] color2[v]) is Some <==> queue2.contains(
        v as usize,
    )) by {
        assert(queue2.contains(v as usize) <==> (w == v as usize || queue.contains(v as usize)));
    }
}

proof fn lemma_step_expanded(
    n: int,
    es: Seq<(usize, usize)>,
    lists: Seq<Seq<usize>>,
    color: Seq<Option<bool>>,
    root: Seq<int>,
    queue: Seq<usize>,
    done: int,
    k: int,
    u: int,
    w: usize,
)
    requires
        neighbor_step(n, es, lists, color, root, queue, done, k, u, w),
    ensures
        ({
            let color2 = color.update(w as int, Some(!color[u]->0));
            let queue2 = queue.push(w);
            &&& forall|j: int, m: int|
                0 <= j < done && 0 <= m < lists[queue2[j] as int].len() ==> color2[#[trigger] lists[queue2[j] as int][m] as int]
                    == Some(!color2[queue2[j] as int]->0)
            &&& done < queue2.len() ==> 0 <= k + 1 <= lists[queue2[done] as int].len() && forall|m: int|
                0 <= m < k + 1 ==> color2[#[trigger] lists[queue2[done] as int][m] as int] == Some(
                    !color2[queue2[done] as int]->0,
                )
        }),
{
    lemma_step_facts(n, es, lists, color, root, queue, done, k, u, w);
    lemma_state_basics(n, es, lists, color, root, queue, done, k);
    reveal(search_state);
    let color2 = color.update(w as int, Some(!color[u]->0));
    let queue2 = queue.push(w);
    assert forall|j: int, m: int|
        0 <= j < done && 0 <= m < lists[queue2[j] as int].len() implies color2[#[trigger] lists[queue2[j] as int][m] as int]
        == Some(!color2[queue2[j] as int]->0) by {
        assert(queue2[j] == queue[j]);
        assert(color[lists[queue[j] as int][m] as int] is Some);
        assert(queue.contains(queue[j]));
        assert(color[queue[j] as int] is Some);
    }
    assert(queue2[done] == queue[done]);
    assert forall|m: int| 0 <= m < k + 1 implies color2[#[trigger] lists[queue2[done] as int][m] as int]
        == Some(!color2[queue2[done] as int]->0) by {
        if m < k {
            assert(color[lists[u][m] as int] is Some);
        }
    }
}

proof fn lemma_step_shared_root(
    n: int,
    es: Seq<(usize, usize)>,
    lists: Seq<Seq<usize>>,
    color: Seq<Option<bool>>,
    root: Seq<int>,
    queue: Seq<usize>,
    done: int,
    k: int,
    u: int,
    w: usize,
)
    requires
        neighbor_step(n, es, lists, color, root, queue, done, k, u, w),
    ensures
        ({
            let root2 = root.update(w as int, root[u]);
            let queue2 = queue.push(w);
            forall|j1: int, j2: int|
                done <= j1 < queue2.len() && done <= j2 < queue2.len() ==> root2[#[trigger] queue2[j1] as int]
                    == root2[#[trigger] queue2[j2] as int]
        }),
{
    lemma_step_facts(n, es, lists, color, root, queue, done, k, u, w);
    reveal(search_state);
    let root2 = root.update(w as int, root[u]);
    let queue2 = queue.push(w);
    assert forall|j: int| done <= j < queue2.len() implies root2[queue2[j] as int] == root[u] by {
        if j < queue.len() {
            assert(queue2[j] == queue[j]);
            assert(queue.contains(queue[j]));
            assert(root[queue[j] as int] == root[queue[done] as int]);
        }
    }
    assert forall|j1: int, j2: int|
        done <= j1 < queue2.len() && done <= j2 < queue2.len() implies root2[#[trigger] queue2[j1] as int]
        == root2[#[trigger] queue2[j2] as int] by {
        assert(root2[queue2[j1] as int] == root[u]);
        assert(root2[queue2[j2] as int] == root[u]);
    }
}

proof fn lemma_step_agrees(
    n: int,
    es: Seq<(usize, usize)>,
    lists: Seq<Seq<usize>>,
    color: Seq<Option<bool>>,
    root: Seq<int>,
    queue: Seq<usize>,
    done: int,
    k: int,
    u: int,
    w: usize,
)
    requires
        neighbor_step(n, es, lists, color, root, queue, done, k, u, w),
    ensures
        ({
            let color2 = color.update(w as int, Some(!color[u]->0));
            let root2 = root.update(w as int, root[u]);
            forall|c: Seq<bool>|
                c.len() == n && #[trigger] proper_two_coloring(es, c) ==> agrees_with(c, color2, root2)
        }),
{
    lemma_step_facts(n, es, lists, color, root, queue, done, k, u, w);
    reveal(search_state);
    let color2 = color.update(w as int, Some(!color[u]->0));
    let root2 = root.update(w as int, root[u]);
    assert forall|c: Seq<bool>| c.len() == n && #[trigger] proper_two_coloring(es, c) implies agrees_with(c, color2, root2) by {
        assert(agrees_with(c, color, root));
        assert(c[u] != c[w as int]) by {
            let i = choose|i: int|
                0 <= i < es.len() && ((es[i].0 == u && es[i].1 == w) || (es[i].0 == w && es[i].1 == u));
        }
        assert forall|v: int| 0 <= v < color2.len() && (#[trigger] color2[v]) is Some implies (c[v]
            == c[root2[v]]) == (color2[v] == Some(false)) by {
            if v != w {
                assert(color[v] is Some);
                if root[v] == w {
                    assert(color[w as int] is Some);
                }
            } else {
                assert((c[u] == c[root[u]]) == (color[u] == Some(false)));
            }
        }
    }
}

/// The node being expanded has its `k`-th neighbour `w` still uncoloured: `w` gets the other
/// colour and joins the queue.
pub(crate) proof fn lemma_color_neighbor(
    n: int,
    es: Seq<(usize, usize)>,
    lists: Seq<Seq<usize>>,
    color: Seq<Option<bool>>,
    root: Seq<int>,
    queue: Seq<usize>,
    done: int,
    k: int,
)
    requires
        search_state(n, es, lists, color, root, queue, done, k),
        done < queue.len(),
        k < lists[queue[done] as int].len(),
        color[lists[queue[done] as int][k] as int] is None,
    ensures
        ({
            let u = queue[done] as int;
            let w = lists[u][k];
            search_state(
                n,
                es,
                lists,
                color.update(w as int, Some(!color[u]->0)),
                root.update(w as int, root[u]),
                queue.push(w),
                done,
                k + 1,
            )
        }),
{
    let u = queue[done] as int;
    let w = lists[u][k];
    lemma_step_facts(n, es, lists, color, root, queue, done, k, u, w);
    lemma_step_roots(n, es, lists, color, root, queue, done, k, u, w);
    lemma_step_queue(n, es, lists, color, root, queue, done, k, u, w);
    lemma_step_expanded(n, es, lists, color, root, queue, done, k, u, w);
    lemma_step_shared_root(n, es, lists, color, root, queue, done, k, u, w);
    lemma_step_agrees(n, es, lists, color, root, queue, done, k, u, w);
    lemma_state_basics(n, es, lists, color, root, queue, done, k);
    reveal(search_state);
    let color2 = color.update(w as int, Some(!color[u]->0));
    let root2 = root.update(w as int, root[u]);
    let queue2 = queue.push(w);
    assert(color2.len() == n);
    assert(root2.len() == n);
    assert(0 <= done <= queue2.len());
    assert(queue2.no_duplicates()) by {
        assert forall|i: int, j: int| 0 <= i < queue2.len() && 0 <= j < queue2.len() && i != j implies queue2[i] != queue2[j] by {
            if i < queue.len() && j < queue.len() {
                assert(queue2[i] == queue[i] && queue2[j] == queue[j]);
            } else if i < queue.len() {
                assert(queue2[i] == queue[i]);
                assert(queue.contains(queue[i]));
            } else if j < queue.len() {
                assert(queue2[j] == queue[j]);
                assert(queue.contains(queue[j]));
            }
        }
    }
    assert(is_adjacency_of(lists, n, es));
    assert(forall|j: int| 0 <= j < queue2.len() ==> #[trigger] queue2[j] < n);
    assert forall|v: int| 0 <= v < n implies ((#[trigger] color2[v]) is Some <==> queue2.contains(
        v as usize,
    )) by {
        broadcast use vstd::seq_lib::lemma_seq_contains_after_push;

        assert(queue2.contains(v as usize) <==> (w == v as usize || queue.contains(v as usize)));
    }
    assert(forall|v: int|
        0 <= v < n && color2[v] is Some ==> 0 <= #[trigger] root2[v] < n && color2[root2[v]] == Some(
            false,
        ));
    assert(forall|j: int, m: int|
        0 <= j < done && 0 <= m < lists[queue2[j] as int].len() ==> color2[#[trigger] lists[queue2[j] as int][m] as int]
            == Some(!color2[queue2[j] as int]->0));
    assert(done < queue2.len() ==> 0 <= k + 1 <= lists[queue2[done] as int].len() && forall|m: int|
        0 <= m < k + 1 ==> color2[#[trigger] lists[queue2[done] as int][m] as int] == Some(
            !color2[queue2[done] as int]->0,
        ));
    assert(forall|j1: int, j2: int|
        done <= j1 < queue2.len() && done <= j2 < queue2.len() ==> root2[#[trigger] queue2[j1] as int]
            == root2[#[trigger] queue2[j2] as int]);
    assert(forall|c: Seq<bool>|
        c.len() == n && #[trigger] proper_two_coloring(es, c) ==> agrees_with(c, color2, root2));
}

/// The `k`-th neighbour of the node being expanded already has the other colour.
pub(crate) proof fn lemma_neighbor_agrees(
    n: int,
    es: Seq<(usize, usize)>,
    lists: Seq<Seq<usize>>,
    color: Seq<Option<bool>>,
    root: Seq<int>,
    queue: Seq<usize>,
    done: int,
    k: int,
)
    requires
        search_state(n, es, lists, color, root, queue, done, k),
        done < queue.len(),
        k < lists[queue[done] as int].len(),
        color[lists[queue[done] as int][k] as int] == Some(!color[queue[done] as int]->0),
    ensures
        search_state(n, es, lists, color, root, queue, done, k + 1),
{
    reveal(search_state);
}

/// The node being expanded is done with: every neighbour has the other colour.
pub(crate) proof fn lemma_finish_node(
    n: int,
    es: Seq<(usize, usize)>,
    lists: Seq<Seq<usize>>,
    color: Seq<Option<bool>>,
    root: Seq<int>,
    queue: Seq<usize>,
    done: int,
    k: int,
)
    requires
        search_state(n, es, lists, color, root, queue, done, k),
        done < queue.len(),
        k == lists[queue[done] as int].len(),
    ensures
        search_state(n, es, lists, color, root, queue, done + 1, 0),
{
    reveal(search_state);
    assert forall|j: int, m: int|
        0 <= j < done + 1 && 0 <= m < lists[queue[j] as int].len() implies color[#[trigger] lists[queue[j] as int][m] as int]
        == Some(!color[queue[j] as int]->0) by {
        if j == done {
            assert(0 <= m < k);
        }
    }
}

/// A neighbour of the node being expanded has the node's own colour: no proper two-colouring
/// exists.
pub(crate) proof fn lemma_neighbor_conflict(
    n: int,
    es: Seq<(usize, usize)>,
    lists: Seq<Seq<usize>>,
    color: Seq<Option<bool>>,
    root: Seq<int>,
    queue: Seq<usize>,
    done: int,
    k: int,
)
    requires
        search_state(n, es, lists, color, root, queue, done, k),
        done < queue.len(),
        k < lists[queue[done] as int].len(),
        color[lists[queue[done] as int][k] as int] == color[queue[done] as int],
    ensures
        !two_colorable(n, es),
{
    lemma_state_basics(n, es, lists, color, root, queue, done, k);
    reveal(search_state);
    let u = queue[done] as int;
    let w = lists[u][k];
    assert(lists[u] == crate::graph::neighbors(es, u));
    lemma_neighbors_contains(es, u, w);
    assert(lists[u].contains(w));
    assert(linked(es, u, w as int));
    assert(color[u] is Some);
    assert(color[w as int] is Some);
    let jw = choose|j: int| 0 <= j < queue.len() && queue[j] == w;
    if jw < done {
        assert(linked(es, w as int, u));
        lemma_neighbors_contains(es, w as int, u as usize);
        assert(lists[w as int] == crate::graph::neighbors(es, w as int));
        let m = choose|m: int| 0 <= m < lists[w as int].len() && lists[w as int][m] == u as usize;
        assert(color[lists[queue[jw] as int][m] as int] == Some(!color[queue[jw] as int]->0));
        assert(false);
    } else {
        assert(root[queue[jw] as int] == root[queue[done] as int]);
        if two_colorable(n, es) {
            let c = choose|c: Seq<bool>| c.len() == n && #[trigger] proper_two_coloring(es, c);
            assert(agrees_with(c, color, root));
            assert((c[u] == c[root[u]]) == (color[u] == Some(false)));
            assert((c[w as int] == c[root[w as int]]) == (color[w as int] == Some(false)));
            let i = choose|i: int|
                0 <= i < es.len() && ((es[i].0 == u && es[i].1 == w) || (es[i].0 == w && es[i].1 == u));
            assert(c[es[i].0 as int] != c[es[i].1 as int]);
        }
    }
}

/// Every node is coloured and expanded: the colours are a proper two-colouring.
pub(crate) proof fn lemma_all_colored(
    n: int,
    es: Seq<(usize, usize)>,
    lists: Seq<Seq<usize>>,
    color: Seq<Option<bool>>,
    root: Seq<int>,
    queue: Seq<usize>,
)
    requires
        search_state(n, es, lists, color, root, queue, queue.len() as int, 0),
        forall|v: int| 0 <= v < n ==> (#[trigger] color[v]) is Some,
    ensures
        two_colorable(n, es),
{
    reveal(search_state);
    let c = Seq::new(n as nat, |v: int| color[v]->0);
    assert forall|i: int| 0 <= i < es.len() implies c[es[i].0 as int] != c[es[i].1 as int] by {
        let s = es[i].0;
        let t = es[i].1;
        assert(linked(es, s as int, t as int));
        lemma_neighbors_contains(es, s as int, t);
        assert(lists[s as int] == crate::graph::neighbors(es, s as int));
        let m = choose|m: int| 0 <= m < lists[s as int].len() && lists[s as int][m] == t;
        assert(color[s as int] is Some);
        let j = choose|j: int| 0 <= j < queue.len() && queue[j] == s;
        assert(color[lists[queue[j] as int][m] as int] == Some(!color[queue[j] as int]->0));
    }
    assert(proper_two_coloring(es, c));
}

} // verus!

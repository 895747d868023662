use vstd::prelude::*;

use crate::grid::{grid_columns, is_square_side};

verus! {

/// The first member of `list` that is placed.
pub open spec fn first_placed(list: Seq<usize>, placed: Seq<bool>) -> Option<usize>
    decreases list.len(),
{
    if list.len() == 0 {
        None
    } else if placed[list[0] as int] {
        Some(list[0])
    } else {
        first_placed(list.drop_first(), placed)
    }
}

/// The anchor of node `v`: none for a placed node, else its first placed neighbour.
pub open spec fn anchor_of(adj: Seq<Seq<usize>>, placed: Seq<bool>, v: int) -> Option<usize> {
    if placed[v] {
        None
    } else {
        first_placed(adj[v], placed)
    }
}

/// How many of the nodes below `k` are unplaced and have the anchor `a` (`None`: no anchor).
pub open spec fn count_with_anchor(adj: Seq<Seq<usize>>, placed: Seq<bool>, a: Option<usize>, k: int) -> nat
    decreases k,
{
    if k <= 0 {
        0
    } else {
        count_with_anchor(adj, placed, a, k - 1) + if !placed[k - 1] && anchor_of(adj, placed, k - 1)
            == a {
            1nat
        } else {
            0nat
        }
    }
}

/// Where a node of a partly placed drawing goes.
#[derive(Debug)]
pub enum Placement {
    /// The node keeps its position.
    Fixed,
    /// The node goes beside its anchor, as the `order`-th of the `total` nodes anchored there.
    Anchored { anchor: usize, order: usize, total: usize },
    /// The node has no placed neighbour and goes to the `order`-th free cell.
    Fallback { order: usize },
}

/// What to do with a partly placed drawing.
#[derive(Debug)]
pub enum LockedPlan {
    /// Nothing to place.
    Keep,
    /// Nothing is placed: lay every node out on a grid.
    Grid,
    /// Place each unplaced node as given.
    Place(Vec<Placement>),
}

/// The placement of node `v` in a partly placed drawing.
pub open spec fn placement_of(adj: Seq<Seq<usize>>, placed: Seq<bool>, v: int) -> Placement {
    if placed[v] {
        Placement::Fixed
    } else {
        match anchor_of(adj, placed, v) {
            Some(a) => Placement::Anchored {
                anchor: a,
                order: count_with_anchor(adj, placed, Some(a), v) as usize,
                total: count_with_anchor(adj, placed, Some(a), placed.len() as int) as usize,
            },
            None => Placement::Fallback {
                order: count_with_anchor(adj, placed, None, v) as usize,
            },
        }
    }
}

proof fn lemma_count_bound(adj: Seq<Seq<usize>>, placed: Seq<bool>, a: Option<usize>, k: int)
    requires
        k >= 0,
    ensures
        count_with_anchor(adj, placed, a, k) <= k,
    decreases k,
{
    if k > 0 {
        lemma_count_bound(adj, placed, a, k - 1);
    }
}

/// The first placed member of `list`.
pub fn first_placed_in(list: &Vec<usize>, placed: &[bool]) -> (found: Option<usize>)
    requires
        forall|k: int| 0 <= k < list.len() ==> #[trigger] list@[k] < placed.len(),
    ensures
        found == first_placed(list@, placed@),
{
    let mut i: usize = 0;
    assert(list@.skip(0) =~= list@);
    while i < list.len()
        invariant
            i <= list.len(),
            forall|k: int| 0 <= k < list.len() ==> #[trigger] list@[k] < placed.len(),
            first_placed(list@, placed@) == first_placed(list@.skip(i as int), placed@),
        decreases list.len() - i,
    {
        let ghost rest = list@.skip(i as int);
        assert(rest[0] == list@[i as int]);
        if placed[list[i]] {
            return Some(list[i]);
        }
        assert(rest.drop_first() =~= list@.skip(i + 1));
        i = i + 1;
    }
    assert(list@.skip(i as int) =~= Seq::<usize>::empty());
    None
}

/// Decides how to complete a drawing where `placed` marks the nodes that have a position: keep
/// it when every node is placed (or there are none), lay out a grid when none is, and otherwise
/// put each unplaced node beside its first placed neighbour or, without one, in a free cell.
pub fn locked_plan(adjacency: &[Vec<usize>], placed: &[bool]) -> (plan: LockedPlan)
    requires
        adjacency.len() == placed.len(),
        forall|v: int, m: int|
            0 <= v < adjacency.len() && 0 <= m < adjacency@[v]@.len() ==> #[trigger] adjacency@[v]@[m]
                < placed.len(),
    ensures
        ({
            let n = placed.len() as int;
            let adj = adjacency.deep_view();
            match plan {
                LockedPlan::Keep => forall|v: int| 0 <= v < n ==> placed@[v],
                LockedPlan::Grid => n > 0 && forall|v: int| 0 <= v < n ==> !placed@[v],
                LockedPlan::Place(list) => {
                    &&& exists|v: int| 0 <= v < n && placed@[v]
                    &&& exists|v: int| 0 <= v < n && !placed@[v]
                    &&& list.len() == n
                    &&& forall|v: int| 0 <= v < n ==> #[trigger] list@[v] == placement_of(adj, placed@, v)
                    &&& forall|v: int| 0 <= v < n ==> (#[trigger] list@[v] is Fixed <==> placed@[v])
                    &&& forall|v: int|
                        0 <= v < n ==> (#[trigger] list@[v] matches Placement::Anchored { anchor, order, total }
                            ==> placed@[anchor as int] && order < total && exists|k: int|
                            0 <= k < adj[v].len() && adj[v][k] == anchor && forall|j: int|
                                0 <= j < k ==> !placed@[#[trigger] adj[v][j] as int])
                    &&& forall|v: int|
                        0 <= v < n ==> (#[trigger] list@[v] is Fallback ==> forall|k: int|
                            0 <= k < adj[v].len() ==> !placed@[#[trigger] adj[v][k] as int])
                },
            }
        }),
{
    let n = placed.len();
    let ghost adj = adjacency.deep_view();
    let mut any_placed = false;
    let mut any_free = false;
    let mut i: usize = 0;
    while i < n
        invariant
            i <= n,
            n == placed.len(),
            any_placed <==> exists|v: int| 0 <= v < i && placed@[v],
            any_free <==> exists|v: int| 0 <= v < i && !placed@[v],
        decreases n - i,
    {
        if placed[i] {
            any_placed = true;
        } else {
            any_free = true;
        }
        i = i + 1;
    }
    if !any_free {
        return LockedPlan::Keep;
    }
    if !any_placed {
        return LockedPlan::Grid;
    }
    let mut anchors: Vec<Option<usize>> = Vec::new();
    let mut v: usize = 0;
    while v < n
        invariant
            v <= n,
            n == placed.len(),
            adjacency.len() == n,
            adj == adjacency.deep_view(),
            forall|w: int, m: int|
                0 <= w < adjacency.len() && 0 <= m < adjacency@[w]@.len() ==> #[trigger] adjacency@[w]@[m]
                    < placed.len(),
            anchors.len() == v,
            forall|w: int| 0 <= w < v ==> #[trigger] anchors@[w] == anchor_of(adj, placed@, w),
        decreases n - v,
    {
        assert(adj[v as int] =~= adjacency@[v as int]@);
        if placed[v] {
            anchors.push(None);
        } else {
            let found = first_placed_in(&adjacency[v], placed);
            anchors.push(found);
        }
        v = v + 1;
    }
    let mut totals: Vec<usize> = Vec::new();
    while totals.len() < n
        invariant
            totals.len() <= n,
            forall|w: int| 0 <= w < totals.len() ==> #[trigger] totals@[w] == 0,
        decreases n - totals.len(),
    {
        totals.push(0);
    }
    let mut v: usize = 0;
    while v < n
        invariant
            v <= n,
            n == placed.len(),
            anchors.len() == n,
            totals.len() == n,
            adjacency.len() == n,
            forall|w: int| 0 <= w < n ==> #[trigger] anchors@[w] == anchor_of(adj, placed@, w),
            forall|a: int| 0 <= a < n ==> #[trigger] totals@[a] == count_with_anchor(adj, placed@, Some(a as usize), v as int),
            forall|w: int, m: int|
                0 <= w < adjacency.len() && 0 <= m < adjacency@[w]@.len() ==> #[trigger] adjacency@[w]@[m]
                    < placed.len(),
            adj == adjacency.deep_view(),
        decreases n - v,
    {
        proof {
            assert forall|a: int| 0 <= a < n implies #[trigger] totals@[a] <= v by {
                lemma_count_bound(adj, placed@, Some(a as usize), v as int);
            }
        }
        if !placed[v] {
            if let Some(a) = anchors[v] {
                proof {
                    lemma_first_placed_member(adj[v as int], placed@);
                    assert(adj[v as int] =~= adjacency@[v as int]@);
                    let k = choose|k: int| 0 <= k < adj[v as int].len() && adj[v as int][k] == a;
                    assert(adjacency@[v as int]@[k] < n);
                }
                totals.set(a, totals[a] + 1);
            }
        }
        v = v + 1;
    }
    let mut seen: Vec<usize> = Vec::new();
    while seen.len() < n
        invariant
            seen.len() <= n,
            forall|w: int| 0 <= w < seen.len() ==> #[trigger] seen@[w] == 0,
        decreases n - seen.len(),
    {
        seen.push(0);
    }
    let mut fallback: usize = 0;
    let mut list: Vec<Placement> = Vec::new();
    let mut v: usize = 0;
    while v < n
        invariant
            v <= n,
            n == placed.len(),
            anchors.len() == n,
            totals.len() == n,
            seen.len() == n,
            list.len() == v,
            adjacency.len() == n,
            forall|w: int| 0 <= w < n ==> #[trigger] anchors@[w] == anchor_of(adj, placed@, w),
            forall|a: int| 0 <= a < n ==> #[trigger] totals@[a] == count_with_anchor(adj, placed@, Some(a as usize), n as int),
            forall|a: int| 0 <= a < n ==> #[trigger] seen@[a] == count_with_anchor(adj, placed@, Some(a as usize), v as int),
            fallback == count_with_anchor(adj, placed@, None, v as int),
            forall|w: int| 0 <= w < v ==> #[trigger] list@[w] == placement_of(adj, placed@, w),
            forall|w: int, m: int|
                0 <= w < adjacency.len() && 0 <= m < adjacency@[w]@.len() ==> #[trigger] adjacency@[w]@[m]
                    < placed.len(),
            adj == adjacency.deep_view(),
        decreases n - v,
    {
        proof {
            assert forall|a: int| 0 <= a < n implies #[trigger] seen@[a] <= v by {
                lemma_count_bound(adj, placed@, Some(a as usize), v as int);
            }
            lemma_count_bound(adj, placed@, None, v as int);
        }
        if placed[v] {
            list.push(Placement::Fixed);
        } else {
            match anchors[v] {
                Some(a) => {
                    proof {
                        lemma_first_placed_member(adj[v as int], placed@);
                        assert(adj[v as int] =~= adjacency@[v as int]@);
                        let k = choose|k: int| 0 <= k < adj[v as int].len() && adj[v as int][k] == a;
                        assert(adjacency@[v as int]@[k] < n);
                    }
                    list.push(Placement::Anchored { anchor: a, order: seen[a], total: totals[a] });
                    seen.set(a, seen[a] + 1);
                },
                None => {
                    list.push(Placement::Fallback { order: fallback });
                    fallback = fallback + 1;
                },
            }
        }
        v = v + 1;
    }
    proof {
        assert forall|w: int| 0 <= w < n implies {
            &&& (#[trigger] list@[w] is Fixed <==> placed@[w])
            &&& (list@[w] matches Placement::Anchored { anchor, order, total } ==> placed@[anchor as int] && order
                < total && exists|k: int|
                0 <= k < adj[w].len() && adj[w][k] == anchor && forall|j: int|
                    0 <= j < k ==> !placed@[#[trigger] adj[w][j] as int])
            &&& (list@[w] is Fallback ==> forall|k: int| 0 <= k < adj[w].len() ==> !placed@[#[trigger] adj[w][k] as int])
        } by {
            lemma_placed_nodes_stay(adj, placed@, w);
        }
    }
    LockedPlan::Place(list)
}

/// The first placed member of a list is a member of it.
proof fn lemma_first_placed_member(list: Seq<usize>, placed: Seq<bool>)
    ensures
        first_placed(list, placed) matches Some(a) ==> list.contains(a),
    decreases list.len(),
{
    if list.len() > 0 && !placed[list[0] as int] {
        lemma_first_placed_member(list.drop_first(), placed);
        if first_placed(list.drop_first(), placed) is Some {
            let a = first_placed(list.drop_first(), placed)->0;
            let k = choose|k: int| 0 <= k < list.drop_first().len() && list.drop_first()[k] == a;
            assert(list[k + 1] == a);
        }
    } else if list.len() > 0 {
        assert(list.contains(list[0]));
    }
}

/// The number of columns beside an anchor that holds `total` nodes: five from ten nodes on,
/// else one per node (at least one).
pub open spec fn anchor_columns(total: int) -> int {
    if total >= 10 {
        5
    } else if total < 1 {
        1
    } else {
        total
    }
}

/// The row and column, beside its anchor, of the `order`-th of the `total` nodes anchored there.
pub fn anchor_cell(order: usize, total: usize) -> (cell: (usize, usize))
    ensures
        cell.0 == order / (anchor_columns(total as int) as usize),
        cell.1 == order % (anchor_columns(total as int) as usize),
{
    let columns = if total >= 10 {
        5
    } else if total < 1 {
        1
    } else {
        total
    };
    (order / columns, order % columns)
}

/// The row and column of the `order`-th node without an anchor, in a square grid just big
/// enough for `order + 1` nodes.
pub fn fallback_cell(order: usize) -> (cell: (usize, usize))
    requires
        order < usize::MAX,
    ensures
        exists|columns: int|
            #[trigger] is_square_side(order + 1, columns) && columns > 0 && cell.0 == order as int / columns
                && cell.1 == order as int % columns,
{
    let columns = grid_columns(order + 1);
    assert(columns > 0) by (nonlinear_arith)
        requires columns * columns >= order + 1, columns >= 0;
    (order / columns, order % columns)
}

/// The first placed member of a list is a placed member of it; when there is none, no member
/// is placed.
proof fn lemma_first_placed(list: Seq<usize>, placed: Seq<bool>)
    ensures
        match first_placed(list, placed) {
            Some(a) => list.contains(a) && placed[a as int] && exists|k: int|
                0 <= k < list.len() && list[k] == a && forall|j: int| 0 <= j < k ==> !placed[#[trigger] list[j] as int],
            None => forall|k: int| 0 <= k < list.len() ==> !placed[#[trigger] list[k] as int],
        },
    decreases list.len(),
{
    if list.len() > 0 {
        lemma_first_placed(list.drop_first(), placed);
        if !placed[list[0] as int] {
            match first_placed(list.drop_first(), placed) {
                Some(a) => {
                    let rest = list.drop_first();
                    let k = choose|k: int|
                        0 <= k < rest.len() && rest[k] == a && forall|j: int| 0 <= j < k ==> !placed[#[trigger] rest[j] as int];
                    assert(list[k + 1] == a);
                    assert forall|j: int| 0 <= j < k + 1 implies !placed[#[trigger] list[j] as int] by {
                        if j > 0 {
                            assert(list[j] == rest[j - 1]);
                        }
                    }
                },
                None => {
                    assert forall|k: int| 0 <= k < list.len() implies !placed[#[trigger] list[k] as int] by {
                        if k > 0 {
                            assert(list[k] == list.drop_first()[k - 1]);
                        }
                    }
                },
            }
        } else {
            assert(list.contains(list[0]));
        }
    }
}

/// Counting more nodes counts at least as many, and a counted node adds one.
proof fn lemma_count_grows(adj: Seq<Seq<usize>>, placed: Seq<bool>, a: Option<usize>, v: int, w: int)
    requires
        0 <= v < w,
        !placed[v],
        anchor_of(adj, placed, v) == a,
    ensures
        count_with_anchor(adj, placed, a, v) < count_with_anchor(adj, placed, a, w),
    decreases w - v,
{
    if w > v + 1 {
        lemma_count_grows(adj, placed, a, v, w - 1);
    }
}

/// Completing a partly placed drawing never moves a placed node: placed nodes, and only they,
/// keep their positions; every other node goes beside a placed neighbour, its first one, or,
/// when it has none, to a free cell.
pub proof fn lemma_placed_nodes_stay(adj: Seq<Seq<usize>>, placed: Seq<bool>, v: int)
    requires
        0 <= v < placed.len(),
        adj.len() == placed.len(),
        placed.len() <= usize::MAX,
    ensures
        placement_of(adj, placed, v) is Fixed <==> placed[v],
        placement_of(adj, placed, v) matches Placement::Anchored { anchor, order, total }
            ==> adj[v].contains(anchor) && placed[anchor as int] && order < total,
        placement_of(adj, placed, v) matches Placement::Anchored { anchor, .. } ==> exists|k: int|
            0 <= k < adj[v].len() && adj[v][k] == anchor && forall|j: int|
                0 <= j < k ==> !placed[#[trigger] adj[v][j] as int],
        placement_of(adj, placed, v) is Fallback ==> !placed[v] && forall|k: int|
            0 <= k < adj[v].len() ==> !placed[#[trigger] adj[v][k] as int],
{
    lemma_first_placed(adj[v], placed);
    if !placed[v] {
        if let Some(a) = anchor_of(adj, placed, v) {
            lemma_count_grows(adj, placed, Some(a), v, placed.len() as int);
            lemma_count_bound(adj, placed, Some(a), placed.len() as int);
            lemma_count_bound(adj, placed, Some(a), v);
        }
    }
}

/// No two unplaced nodes share a slot: nodes beside the same anchor, and nodes in free cells,
/// each get a different order.
pub proof fn lemma_slots_distinct(adj: Seq<Seq<usize>>, placed: Seq<bool>, v: int, w: int)
    requires
        0 <= v < w < placed.len(),
        placed.len() <= usize::MAX,
    ensures
        placement_of(adj, placed, v) matches Placement::Anchored { anchor: a1, order: o1, .. }
            ==> placement_of(adj, placed, w) matches Placement::Anchored { anchor: a2, order: o2, .. }
            ==> a1 == a2 ==> o1 < o2,
        placement_of(adj, placed, v) matches Placement::Fallback { order: o1 }
            ==> placement_of(adj, placed, w) matches Placement::Fallback { order: o2 } ==> o1 < o2,
{
    if !placed[v] && !placed[w] {
        let a = anchor_of(adj, placed, v);
        if anchor_of(adj, placed, w) == a {
            lemma_count_grows(adj, placed, a, v, w);
            lemma_count_bound(adj, placed, a, w);
        }
    }
}

} // verus!

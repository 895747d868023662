use vstd::prelude::*;

use crate::graph::{lemma_positions_filter, positions, index_of, last_index_of, lemma_last_index_of};

verus! {

/// The positions of the nodes that `names` names, in order, skipping names of no node.
pub open spec fn resolved_names(ids: Seq<Seq<char>>, names: Seq<Seq<char>>) -> Seq<usize>
    decreases names.len(),
{
    if names.len() == 0 {
        Seq::empty()
    } else {
        let prev = resolved_names(ids, names.drop_last());
        match last_index_of(ids, names.last()) {
            Some(i) => prev.push(i as usize),
            None => prev,
        }
    }
}

/// The given shells as node positions, leaving out shells that name no node.
pub open spec fn resolved_shells(ids: Seq<Seq<char>>, shells: Seq<Seq<Seq<char>>>) -> Seq<Seq<usize>>
    decreases shells.len(),
{
    if shells.len() == 0 {
        Seq::empty()
    } else {
        let prev = resolved_shells(ids, shells.drop_last());
        let shell = resolved_names(ids, shells.last());
        if shell.len() == 0 {
            prev
        } else {
            prev.push(shell)
        }
    }
}

/// Some given shell names node `v`.
pub open spec fn named_in_shells(ids: Seq<Seq<char>>, shells: Seq<Seq<Seq<char>>>, v: int) -> bool {
    exists|i: int, j: int|
        0 <= i < shells.len() && 0 <= j < shells[i].len() && #[trigger] last_index_of(ids, shells[i][j])
            == Some(v)
}

/// The positions below `k` that no shell names, in increasing order.
pub open spec fn unnamed_below(ids: Seq<Seq<char>>, shells: Seq<Seq<Seq<char>>>, k: int) -> Seq<usize> {
    positions(k).filter(unnamed_in(ids, shells))
}

/// Whether no shell names a node.
pub open spec fn unnamed_in(ids: Seq<Seq<char>>, shells: Seq<Seq<Seq<char>>>) -> spec_fn(usize) -> bool {
    |v: usize| !named_in_shells(ids, shells, v as int)
}

/// The positions of the nodes named in `names`, in order, skipping unknown names; `used` marks
/// each position found.
fn resolve_names(ids: &Vec<String>, names: &Vec<String>, used: &mut Vec<bool>) -> (shell: Vec<usize>)
    requires
        old(used).len() == ids.len(),
    ensures
        shell@ == resolved_names(ids.deep_view(), names.deep_view()),
        final(used).len() == ids.len(),
        forall|v: int|
            0 <= v < ids.len() ==> (#[trigger] final(used)@[v] <==> (old(used)@[v] || exists|j: int|
                0 <= j < names.len() && last_index_of(ids.deep_view(), names.deep_view()[j]) == Some(v))),
{
    let ghost all = names.deep_view();
    let ghost before = used@;
    let mut shell: Vec<usize> = Vec::new();
    let mut j: usize = 0;
    while j < names.len()
        invariant
            j <= names.len(),
            all == names.deep_view(),
            used.len() == ids.len(),
            shell@ == resolved_names(ids.deep_view(), all.take(j as int)),
            forall|v: int|
                0 <= v < ids.len() ==> (#[trigger] used@[v] <==> (before[v] || exists|k: int|
                    0 <= k < j && last_index_of(ids.deep_view(), all[k]) == Some(v))),
        decreases names.len() - j,
    {
        assert(all.take(j + 1).drop_last() =~= all.take(j as int));
        assert(all.take(j + 1).last() == names[j as int]@);
        let found = index_of(ids, &names[j]);
        proof {
            lemma_last_index_of(ids.deep_view(), names[j as int]@);
        }
        if let Some(i) = found {
            shell.push(i);
            used.set(i, true);
        }
        proof {
            assert forall|v: int| 0 <= v < ids.len() implies (#[trigger] used@[v] <==> (before[v] || exists|k: int|
                0 <= k < j + 1 && last_index_of(ids.deep_view(), all[k]) == Some(v))) by {
                if exists|k: int| 0 <= k < j + 1 && last_index_of(ids.deep_view(), all[k]) == Some(v) {
                    let k = choose|k: int| 0 <= k < j + 1 && last_index_of(ids.deep_view(), all[k]) == Some(v);
                    if k < j {
                        assert(exists|k: int| 0 <= k < j && last_index_of(ids.deep_view(), all[k]) == Some(v));
                    }
                }
                if exists|k: int| 0 <= k < j && last_index_of(ids.deep_view(), all[k]) == Some(v) {
                    let k = choose|k: int| 0 <= k < j && last_index_of(ids.deep_view(), all[k]) == Some(v);
                    assert(0 <= k < j + 1);
                }
            }
        }
        j = j + 1;
    }
    assert(all.take(names.len() as int) =~= all);
    shell
}

/// The shells of a shell drawing, as node positions: without given shells, one shell of every
/// node in order; with given shells (lists of node ids), those that name a node, each with its
/// named nodes in order, followed, when some node is named by no shell, by a shell of those
/// nodes in increasing order.
pub fn resolve_shells(ids: &Vec<String>, nlist: Option<&Vec<Vec<String>>>) -> (shells: Vec<Vec<usize>>)
    ensures
        ({
            let n = ids.len() as int;
            let names = ids.deep_view();
            match nlist {
                None => shells.len() == 1 && shells@[0]@ == positions(n),
                Some(list) => {
                    let given = resolved_shells(names, list.deep_view());
                    let missing = unnamed_below(names, list.deep_view(), n);
                    &&& shells.len() == given.len() + if missing.len() > 0 {
                        1int
                    } else {
                        0int
                    }
                    &&& forall|i: int| 0 <= i < given.len() ==> #[trigger] shells@[i]@ == given[i]
                    &&& missing.len() > 0 ==> shells@[given.len() as int]@ == missing
                },
            }
        }),
{
    let n = ids.len();
    match nlist {
        None => {
            let mut all: Vec<usize> = Vec::new();
            let mut v: usize = 0;
            while v < n
                invariant
                    v <= n,
                    all@ == positions(v as int),
                decreases n - v,
            {
                assert(positions(v + 1) =~= positions(v as int).push(v));
                all.push(v);
                v = v + 1;
            }
            let mut shells: Vec<Vec<usize>> = Vec::new();
            shells.push(all);
            shells
        },
        Some(list) => {
            let ghost given_names = list.deep_view();
            let ghost names = ids.deep_view();
            let mut used: Vec<bool> = Vec::new();
            while used.len() < n
                invariant
                    used.len() <= n,
                    forall|v: int| 0 <= v < used.len() ==> !#[trigger] used@[v],
                decreases n - used.len(),
            {
                used.push(false);
            }
            let mut shells: Vec<Vec<usize>> = Vec::new();
            let mut i: usize = 0;
            while i < list.len()
                invariant
                    i <= list.len(),
                    n == ids.len(),
                    given_names == list.deep_view(),
                    names == ids.deep_view(),
                    used.len() == n,
                    shells.len() == resolved_shells(names, given_names.take(i as int)).len(),
                    forall|k: int| 0 <= k < shells.len() ==> #[trigger] shells@[k]@ == resolved_shells(names, given_names.take(i as int))[k],
                    forall|v: int|
                        0 <= v < n ==> (#[trigger] used@[v] <==> named_in_shells(names, given_names.take(i as int), v)),
                decreases list.len() - i,
            {
                let ghost prefix = given_names.take(i + 1);
                assert(prefix.drop_last() =~= given_names.take(i as int));
                assert(prefix.last() == list[i as int].deep_view());
                let ghost before = used@;
                let shell = resolve_names(ids, &list[i], &mut used);
                proof {
                    assert forall|v: int| 0 <= v < n implies (#[trigger] used@[v] <==> named_in_shells(names, prefix, v)) by {
                        if named_in_shells(names, prefix, v) {
                            let (a, b) = choose|a: int, b: int|
                                0 <= a < prefix.len() && 0 <= b < prefix[a].len() && #[trigger] last_index_of(names, prefix[a][b]) == Some(v);
                            if a < i {
                                assert(given_names.take(i as int)[a] == prefix[a]);
                                assert(named_in_shells(names, given_names.take(i as int), v));
                            } else {
                                assert(prefix[a] == list[i as int].deep_view());
                            }
                        }
                        if before[v] {
                            let (a, b) = choose|a: int, b: int|
                                0 <= a < given_names.take(i as int).len() && 0 <= b < given_names.take(i as int)[a].len() && #[trigger] last_index_of(names, given_names.take(i as int)[a][b]) == Some(v);
                            assert(prefix[a] == given_names.take(i as int)[a]);
                            assert(last_index_of(names, prefix[a][b]) == Some(v));
                        }
                        if exists|j: int| 0 <= j < list[i as int].len() && last_index_of(names, list[i as int].deep_view()[j]) == Some(v) {
                            let j = choose|j: int| 0 <= j < list[i as int].len() && last_index_of(names, list[i as int].deep_view()[j]) == Some(v);
                            assert(prefix[i as int][j] == list[i as int].deep_view()[j]);
                            assert(last_index_of(names, prefix[i as int][j]) == Some(v));
                        }
                    }
                }
                if shell.len() > 0 {
                    let ghost prev = shells@;
                    shells.push(shell);
                    proof {
                        assert forall|k: int| 0 <= k < shells.len() implies #[trigger] shells@[k]@ == resolved_shells(names, prefix)[k] by {
                            if k < prev.len() {
                                assert(shells@[k] == prev[k]);
                            }
                        }
                    }
                }
                i = i + 1;
            }
            assert(given_names.take(list.len() as int) =~= given_names);
            let mut missing: Vec<usize> = Vec::new();
            let mut v: usize = 0;
            assert(unnamed_below(names, given_names, 0) =~= Seq::<usize>::empty());
            while v < n
                invariant
                    v <= n,
                    n == ids.len(),
                    used.len() == n,
                    forall|w: int| 0 <= w < n ==> (#[trigger] used@[w] <==> named_in_shells(names, given_names, w)),
                    missing@ == unnamed_below(names, given_names, v as int),
                decreases n - v,
            {
                proof {
                    broadcast use vstd::seq::Seq::lemma_filter_push;

                    assert(positions(v + 1) =~= positions(v as int).push(v));
                }
                if !used[v] {
                    missing.push(v);
                }
                v = v + 1;
            }
            if missing.len() > 0 {
                let ghost prev = shells@;
                shells.push(missing);
                proof {
                    assert forall|k: int| 0 <= k < prev.len() implies #[trigger] shells@[k]@ == prev[k]@ by {}
                }
            }
            shells
        },
    }
}

/// A name of node `v` puts `v` among the resolved names.
proof fn lemma_resolved_names_contains(ids: Seq<Seq<char>>, names: Seq<Seq<char>>, j: int, v: int)
    requires
        0 <= j < names.len(),
        last_index_of(ids, names[j]) == Some(v),
    ensures
        resolved_names(ids, names).contains(v as usize),
    decreases names.len(),
{
    broadcast use vstd::seq_lib::lemma_seq_contains_after_push;

    let prev = names.drop_last();
    if j == names.len() - 1 {
        assert(names.last() == names[j]);
    } else {
        assert(prev[j] == names[j]);
        lemma_resolved_names_contains(ids, prev, j, v);
    }
}

/// A node among the resolved names of a given shell is in one of the resolved shells.
proof fn lemma_resolved_shells_contains(ids: Seq<Seq<char>>, shells: Seq<Seq<Seq<char>>>, i: int, v: usize)
    requires
        0 <= i < shells.len(),
        resolved_names(ids, shells[i]).contains(v),
    ensures
        exists|k: int| 0 <= k < resolved_shells(ids, shells).len() && #[trigger] resolved_shells(ids, shells)[k].contains(v),
    decreases shells.len(),
{
    let prev = shells.drop_last();
    let all = resolved_shells(ids, shells);
    if i == shells.len() - 1 {
        assert(shells.last() == shells[i]);
        let shell = resolved_names(ids, shells.last());
        assert(shell.len() > 0);
        assert(all[all.len() - 1] == shell);
    } else {
        assert(prev[i] == shells[i]);
        lemma_resolved_shells_contains(ids, prev, i, v);
        let k = choose|k: int| 0 <= k < resolved_shells(ids, prev).len() && #[trigger] resolved_shells(ids, prev)[k].contains(v);
        assert(all[k] == resolved_shells(ids, prev)[k]);
    }
}

/// Given shells leave no node out: every node is in one of the given shells that name a node
/// or in the shell of the nodes that no given shell names, and only the unnamed nodes are in
/// that last shell, once each.
pub proof fn lemma_shells_cover_nodes(ids: Seq<Seq<char>>, shells: Seq<Seq<Seq<char>>>, v: int)
    requires
        ids.len() <= usize::MAX,
        0 <= v < ids.len(),
    ensures
        (exists|k: int| 0 <= k < resolved_shells(ids, shells).len() && #[trigger] resolved_shells(ids, shells)[k].contains(v as usize))
            || unnamed_below(ids, shells, ids.len() as int).contains(v as usize),
        unnamed_below(ids, shells, ids.len() as int).contains(v as usize) <==> !named_in_shells(ids, shells, v),
        unnamed_below(ids, shells, ids.len() as int).no_duplicates(),
{
    lemma_positions_filter(ids.len() as int, unnamed_in(ids, shells));
    if named_in_shells(ids, shells, v) {
        let (i, j) = choose|i: int, j: int|
            0 <= i < shells.len() && 0 <= j < shells[i].len() && #[trigger] last_index_of(ids, shells[i][j]) == Some(v);
        lemma_resolved_names_contains(ids, shells[i], j, v);
        lemma_resolved_shells_contains(ids, shells, i, v as usize);
    }
}

} // verus!

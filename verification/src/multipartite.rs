use vstd::prelude::*;

use crate::graph::{lemma_positions_filter, positions, index_of, last_index_of, lemma_last_index_of};
use crate::options::str_equals;
use crate::shell::{named_in_shells, resolved_names};
use crate::text_order::{lemma_text_less_irreflexive, lemma_text_less_total, lemma_text_less_transitive, str_less, text_less};

verus! {

/// Why layers could not be formed from subsets.
#[derive(Debug)]
pub enum SubsetError {
    /// A subset lists an id that names no node.
    UnknownId(String),
    /// Some node is in no subset.
    Uncovered,
    /// Some node has no subset.
    MissingSubset,
}

/// Every name in every group names a node.
pub open spec fn all_named(ids: Seq<Seq<char>>, groups: Seq<Seq<Seq<char>>>) -> bool {
    forall|i: int, j: int|
        0 <= i < groups.len() && 0 <= j < groups[i].len() ==> #[trigger] last_index_of(ids, groups[i][j]) is Some
}

/// The name at group `i`, place `j`, names no node, and every name before it does.
pub open spec fn first_unknown(ids: Seq<Seq<char>>, groups: Seq<Seq<Seq<char>>>, i: int, j: int) -> bool {
    &&& 0 <= i < groups.len()
    &&& 0 <= j < groups[i].len()
    &&& last_index_of(ids, groups[i][j]) is None
    &&& forall|a: int, b: int|
        (0 <= a < i && 0 <= b < groups[a].len()) || (a == i && 0 <= b < j) ==> #[trigger] last_index_of(ids, groups[a][b]) is Some
}

/// The layers of a multipartite drawing from subsets given as lists of node ids, in the order
/// of their keys: each layer lists the nodes of its subset in order. Fails on the first id that
/// names no node, and when some node is in no subset.
pub fn layers_from_groups(ids: &Vec<String>, groups: &Vec<Vec<String>>) -> (result: Result<Vec<Vec<usize>>, SubsetError>)
    ensures
        ({
            let names = ids.deep_view();
            let gs = groups.deep_view();
            match result {
                Ok(layers) => all_named(names, gs) && (forall|v: int| 0 <= v < ids.len() ==> #[trigger] named_in_shells(names, gs, v))
                    && layers.len() == gs.len() && forall|i: int| 0 <= i < gs.len() ==> #[trigger] layers@[i]@ == resolved_names(names, gs[i]),
                Err(SubsetError::UnknownId(id)) => exists|i: int, j: int| #[trigger] first_unknown(names, gs, i, j) && id@ == gs[i][j],
                Err(SubsetError::Uncovered) => all_named(names, gs) && exists|v: int| 0 <= v < ids.len() && !#[trigger] named_in_shells(names, gs, v),
                Err(SubsetError::MissingSubset) => false,
            }
        }),
{
    let n = ids.len();
    let ghost names = ids.deep_view();
    let ghost gs = groups.deep_view();
    let mut used: Vec<bool> = Vec::new();
    while used.len() < n
        invariant
            used.len() <= n,
            forall|v: int| 0 <= v < used.len() ==> !#[trigger] used@[v],
        decreases n - used.len(),
    {
        used.push(false);
    }
    let mut layers: Vec<Vec<usize>> = Vec::new();
    let mut i: usize = 0;
    while i < groups.len()
        invariant
            i <= groups.len(),
            n == ids.len(),
            names == ids.deep_view(),
            gs == groups.deep_view(),
            used.len() == n,
            layers.len() == i,
            forall|a: int| 0 <= a < i ==> #[trigger] layers@[a]@ == resolved_names(names, gs[a]),
            forall|a: int, b: int| 0 <= a < i && 0 <= b < gs[a].len() ==> #[trigger] last_index_of(names, gs[a][b]) is Some,
            forall|v: int| 0 <= v < n ==> (#[trigger] used@[v] <==> named_in_shells(names, gs.take(i as int), v)),
        decreases groups.len() - i,
    {
        let ghost group = gs[i as int];
        assert(group == groups[i as int].deep_view());
        let mut layer: Vec<usize> = Vec::new();
        let ghost before = used@;
        let mut j: usize = 0;
        while j < groups[i].len()
            invariant
                i < groups.len(),
                j <= groups[i as int].len(),
                n == ids.len(),
                names == ids.deep_view(),
                gs == groups.deep_view(),
                group == gs[i as int],
                group == groups[i as int].deep_view(),
                used.len() == n,
                before.len() == n,
                forall|a: int, b: int| 0 <= a < i && 0 <= b < gs[a].len() ==> #[trigger] last_index_of(names, gs[a][b]) is Some,
                forall|b: int| 0 <= b < j ==> #[trigger] last_index_of(names, group[b]) is Some,
                layer@ == resolved_names(names, group.take(j as int)),
                forall|v: int| 0 <= v < n ==> (#[trigger] used@[v] <==> (before[v] || exists|b: int|
                    0 <= b < j && last_index_of(names, group[b]) == Some(v))),
            decreases groups[i as int].len() - j,
        {
            assert(group.take(j + 1).drop_last() =~= group.take(j as int));
            assert(group.take(j + 1).last() == groups[i as int][j as int]@);
            proof {
                lemma_last_index_of(names, group[j as int]);
            }
            match index_of(ids, &groups[i][j]) {
                Some(v) => {
                    layer.push(v);
                    used.set(v, true);
                },
                None => {
                    proof {
                        assert(first_unknown(names, gs, i as int, j as int));
                    }
                    return Err(SubsetError::UnknownId(groups[i][j].clone()));
                },
            }
            proof {
                assert forall|w: int| 0 <= w < n implies (#[trigger] used@[w] <==> (before[w] || exists|b: int|
                    0 <= b < j + 1 && last_index_of(names, group[b]) == Some(w))) by {
                    if exists|b: int| 0 <= b < j + 1 && last_index_of(names, group[b]) == Some(w) {
                        let b = choose|b: int| 0 <= b < j + 1 && last_index_of(names, group[b]) == Some(w);
                        if b < j {
                            assert(exists|b: int| 0 <= b < j && last_index_of(names, group[b]) == Some(w));
                        }
                    }
                    if exists|b: int| 0 <= b < j && last_index_of(names, group[b]) == Some(w) {
                        let b = choose|b: int| 0 <= b < j && last_index_of(names, group[b]) == Some(w);
                        assert(0 <= b < j + 1);
                    }
                }
            }
            j = j + 1;
        }
        assert(group.take(group.len() as int) =~= group);
        proof {
            let prefix = gs.take(i + 1);
            assert(prefix.drop_last() =~= gs.take(i as int));
            assert forall|v: int| 0 <= v < n implies (#[trigger] used@[v] <==> named_in_shells(names, prefix, v)) by {
                if named_in_shells(names, prefix, v) {
                    let (a, b) = choose|a: int, b: int|
                        0 <= a < prefix.len() && 0 <= b < prefix[a].len() && #[trigger] last_index_of(names, prefix[a][b]) == Some(v);
                    if a < i {
                        assert(gs.take(i as int)[a] == prefix[a]);
                        assert(named_in_shells(names, gs.take(i as int), v));
                    } else {
                        assert(prefix[a] == group);
                    }
                }
                if before[v] {
                    let (a, b) = choose|a: int, b: int|
                        0 <= a < gs.take(i as int).len() && 0 <= b < gs.take(i as int)[a].len() && #[trigger] last_index_of(names, gs.take(i as int)[a][b]) == Some(v);
                    assert(prefix[a] == gs.take(i as int)[a]);
                    assert(last_index_of(names, prefix[a][b]) == Some(v));
                }
                if exists|b: int| 0 <= b < group.len() && last_index_of(names, group[b]) == Some(v) {
                    let b = choose|b: int| 0 <= b < group.len() && last_index_of(names, group[b]) == Some(v);
                    assert(prefix[i as int][b] == group[b]);
                    assert(last_index_of(names, prefix[i as int][b]) == Some(v));
                }
            }
        }
        let ghost prev = layers@;
        layers.push(layer);
        proof {
            assert forall|a: int| 0 <= a < i + 1 implies #[trigger] layers@[a]@ == resolved_names(names, gs[a]) by {
                if a < i {
                    assert(layers@[a] == prev[a]);
                }
            }
        }
        i = i + 1;
    }
    assert(gs.take(groups.len() as int) =~= gs);
    assert(all_named(names, gs));
    let mut v: usize = 0;
    while v < n
        invariant
            v <= n,
            n == ids.len(),
            used.len() == n,
            names == ids.deep_view(),
            gs == groups.deep_view(),
            all_named(names, gs),
            forall|w: int| 0 <= w < n ==> (#[trigger] used@[w] <==> named_in_shells(names, gs, w)),
            forall|w: int| 0 <= w < v ==> #[trigger] named_in_shells(names, gs, w),
        decreases n - v,
    {
        if !used[v] {
            return Err(SubsetError::Uncovered);
        }
        v = v + 1;
    }
    Ok(layers)
}

/// Every node has a subset.
pub open spec fn all_have_subsets(subsets: Seq<Option<Seq<char>>>) -> bool {
    forall|v: int| 0 <= v < subsets.len() ==> #[trigger] subsets[v] is Some
}

/// `keys` are the distinct subsets, in sorted order.
pub open spec fn sorted_distinct_subsets(subsets: Seq<Option<Seq<char>>>, keys: Seq<Seq<char>>) -> bool {
    &&& strictly_sorted(keys)
    &&& witnessed_in(subsets, keys, subsets.len() as int)
    &&& covered_by(subsets, keys, subsets.len() as int)
}

/// The positions whose subset is `key`, in increasing order.
pub open spec fn members_below(subsets: Seq<Option<Seq<char>>>, key: Seq<char>, k: int) -> Seq<usize> {
    positions(k).filter(in_subset(subsets, key))
}

/// Whether a node's subset is `key`.
pub open spec fn in_subset(subsets: Seq<Option<Seq<char>>>, key: Seq<char>) -> spec_fn(usize) -> bool {
    |v: usize| subsets[v as int] == Some(key)
}

/// Each key is smaller than every later one.
pub open spec fn strictly_sorted(keys: Seq<Seq<char>>) -> bool {
    forall|a: int, b: int| 0 <= a < b < keys.len() ==> text_less(#[trigger] keys[a], #[trigger] keys[b])
}

/// The subset of each of the first `v` nodes is among the keys.
#[verifier::opaque]
pub open spec fn covered_by(subsets: Seq<Option<Seq<char>>>, keys: Seq<Seq<char>>, v: int) -> bool {
    forall|w: int| #![trigger subsets[w]] 0 <= w < v ==> exists|a: int| 0 <= a < keys.len() && subsets[w] == Some(#[trigger] keys[a])
}

/// Each key is the subset of one of the first `v` nodes.
#[verifier::opaque]
pub open spec fn witnessed_in(subsets: Seq<Option<Seq<char>>>, keys: Seq<Seq<char>>, v: int) -> bool {
    forall|a: int| #![trigger keys[a]] 0 <= a < keys.len() ==> exists|w: int| 0 <= w < v && #[trigger] subsets[w] == Some(keys[a])
}

proof fn lemma_found_key(subsets: Seq<Option<Seq<char>>>, keys: Seq<Seq<char>>, v: int, p: int)
    requires
        0 <= v < subsets.len(),
        0 <= p < keys.len(),
        subsets[v] == Some(keys[p]),
        covered_by(subsets, keys, v),
        witnessed_in(subsets, keys, v),
    ensures
        covered_by(subsets, keys, v + 1),
        witnessed_in(subsets, keys, v + 1),
{
    assert(covered_by(subsets, keys, v + 1)) by {
        reveal(covered_by);
        assert forall|w: int| #![trigger subsets[w]] 0 <= w < v + 1 implies exists|a: int| 0 <= a < keys.len() && subsets[w] == Some(#[trigger] keys[a]) by {
            if w == v {
                assert(subsets[w] == Some(keys[p]));
            }
        }
    }
    assert(witnessed_in(subsets, keys, v + 1)) by {
        reveal(witnessed_in);
        assert forall|a: int| #![trigger keys[a]] 0 <= a < keys.len() implies exists|w: int| 0 <= w < v + 1 && #[trigger] subsets[w] == Some(keys[a]) by {
            let w = choose|w: int| 0 <= w < v && #[trigger] subsets[w] == Some(keys[a]);
            assert(0 <= w < v + 1);
        }
    }
}

proof fn lemma_inserted_key(subsets: Seq<Option<Seq<char>>>, keys: Seq<Seq<char>>, v: int, p: int, key: Seq<char>)
    requires
        0 <= v < subsets.len(),
        0 <= p <= keys.len(),
        subsets[v] == Some(key),
        covered_by(subsets, keys, v),
        witnessed_in(subsets, keys, v),
    ensures
        covered_by(subsets, keys.insert(p, key), v + 1),
        witnessed_in(subsets, keys.insert(p, key), v + 1),
{
    let now = keys.insert(p, key);
    assert(covered_by(subsets, now, v + 1)) by {
        reveal(covered_by);
        assert forall|w: int| #![trigger subsets[w]] 0 <= w < v + 1 implies exists|a: int| 0 <= a < now.len() && subsets[w] == Some(#[trigger] now[a]) by {
            if w == v {
                assert(subsets[w] == Some(now[p]));
            } else {
                let a = choose|a: int| 0 <= a < keys.len() && subsets[w] == Some(#[trigger] keys[a]);
                if a < p {
                    assert(now[a] == keys[a]);
                } else {
                    assert(now[a + 1] == keys[a]);
                }
            }
        }
    }
    assert(witnessed_in(subsets, now, v + 1)) by {
        reveal(witnessed_in);
        assert forall|a: int| #![trigger now[a]] 0 <= a < now.len() implies exists|w: int| 0 <= w < v + 1 && #[trigger] subsets[w] == Some(now[a]) by {
            if a == p {
                assert(subsets[v] == Some(now[a]));
            } else {
                let b = if a < p { a } else { a - 1 };
                assert(now[a] == keys[b]);
                let w = choose|w: int| 0 <= w < v && #[trigger] subsets[w] == Some(keys[b]);
                assert(0 <= w < v + 1);
            }
        }
    }
}

proof fn lemma_sorted_insert(keys: Seq<Seq<char>>, key: Seq<char>, p: int)
    requires
        0 <= p <= keys.len(),
        strictly_sorted(keys),
        forall|q: int| 0 <= q < p ==> text_less(#[trigger] keys[q], key),
        p < keys.len() ==> text_less(key, keys[p]),
    ensures
        strictly_sorted(keys.insert(p, key)),
{
    let now = keys.insert(p, key);
    assert forall|q: int| p < q < keys.len() implies text_less(key, #[trigger] keys[q]) by {
        lemma_text_less_transitive(key, keys[p], keys[q]);
    }
    assert forall|a: int, b: int| 0 <= a < b < now.len() implies text_less(#[trigger] now[a], #[trigger] now[b]) by {
        if b < p {
            assert(now[a] == keys[a] && now[b] == keys[b]);
        } else if b == p {
            assert(now[a] == keys[a]);
        } else if a < p {
            assert(now[a] == keys[a] && now[b] == keys[b - 1]);
            lemma_text_less_transitive(keys[a], key, keys[b - 1]);
        } else if a == p {
            assert(now[b] == keys[b - 1]);
        } else {
            assert(now[a] == keys[a - 1] && now[b] == keys[b - 1]);
        }
    }
}

/// Groups the nodes by their subset, one group per distinct subset in sorted order, each group
/// in increasing position. Fails when some node has no subset.
pub fn group_by_subset(subsets: &Vec<Option<String>>) -> (result: Result<Vec<Vec<usize>>, SubsetError>)
    ensures
        ({
            let s = subsets.deep_view();
            match result {
                Err(e) => e is MissingSubset && !all_have_subsets(s),
                Ok(groups) => all_have_subsets(s) && exists|keys: Seq<Seq<char>>|
                    #[trigger] sorted_distinct_subsets(s, keys) && groups.len() == keys.len() && forall|a: int|
                        0 <= a < keys.len() ==> #[trigger] groups@[a]@ == members_below(s, keys[a], s.len() as int),
            }
        }),
{
    let n = subsets.len();
    let ghost s = subsets.deep_view();
    let mut v: usize = 0;
    while v < n
        invariant
            v <= n,
            n == subsets.len(),
            s == subsets.deep_view(),
            forall|w: int| 0 <= w < v ==> #[trigger] s[w] is Some,
        decreases n - v,
    {
        match &subsets[v] {
            Some(_) => {},
            None => {
                assert(s[v as int] is None);
                return Err(SubsetError::MissingSubset);
            },
        }
        v = v + 1;
    }
    let mut keys: Vec<String> = Vec::new();
    assert(covered_by(s, keys.deep_view(), 0)) by {
        reveal(covered_by);
    }
    assert(witnessed_in(s, keys.deep_view(), 0)) by {
        reveal(witnessed_in);
    }
    let mut v: usize = 0;
    while v < n
        invariant
            v <= n,
            n == subsets.len(),
            s == subsets.deep_view(),
            all_have_subsets(s),
            strictly_sorted(keys.deep_view()),
            covered_by(s, keys.deep_view(), v as int),
            witnessed_in(s, keys.deep_view(), v as int),
        decreases n - v,
    {
        let key: &String = match &subsets[v] {
            Some(k) => k,
            None => {
                assert(s[v as int] is Some);
                return Err(SubsetError::MissingSubset);
            },
        };
        assert(s[v as int] == Some(key@));
        let ghost before = keys.deep_view();
        let mut p: usize = 0;
        while p < keys.len() && str_less(keys[p].as_str(), key.as_str())
            invariant
                p <= keys.len(),
                before == keys.deep_view(),
                forall|q: int| 0 <= q < p ==> text_less(#[trigger] before[q], key@),
            decreases keys.len() - p,
        {
            assert(before[p as int] == keys@[p as int]@);
            p = p + 1;
        }
        if p < keys.len() && str_equals(keys[p].as_str(), key.as_str()) {
            proof {
                lemma_found_key(s, before, v as int, p as int);
            }
        } else {
            proof {
                if p < keys.len() {
                    assert(before[p as int] == keys@[p as int]@);
                    lemma_text_less_total(before[p as int], key@);
                }
                lemma_sorted_insert(before, key@, p as int);
                lemma_inserted_key(s, before, v as int, p as int, key@);
            }
            let copy = key.clone();
            keys.insert(p, copy);
            assert(keys.deep_view() =~= before.insert(p as int, key@));
        }
        v = v + 1;
    }
    let mut groups: Vec<Vec<usize>> = Vec::new();
    let mut a: usize = 0;
    while a < keys.len()
        invariant
            a <= keys.len(),
            n == subsets.len(),
            s == subsets.deep_view(),
            groups.len() == a,
            forall|b: int| 0 <= b < a ==> #[trigger] groups@[b]@ == members_below(s, keys@[b]@, n as int),
        decreases keys.len() - a,
    {
        let mut group: Vec<usize> = Vec::new();
        let mut w: usize = 0;
        assert(members_below(s, keys@[a as int]@, 0) =~= Seq::<usize>::empty());
        while w < n
            invariant
                w <= n,
                a < keys.len(),
                n == subsets.len(),
                s == subsets.deep_view(),
                group@ == members_below(s, keys@[a as int]@, w as int),
            decreases n - w,
        {
            proof {
                broadcast use vstd::seq::Seq::lemma_filter_push;

                assert(positions(w + 1) =~= positions(w as int).push(w));
            }
            let member = match &subsets[w] {
                Some(k) => str_equals(k.as_str(), keys[a].as_str()),
                None => false,
            };
            proof {
                assert(member == (s[w as int] == Some(keys@[a as int]@)));
            }
            if member {
                group.push(w);
            }
            w = w + 1;
        }
        let ghost prev = groups@;
        groups.push(group);
        proof {
            assert forall|b: int| 0 <= b < a + 1 implies #[trigger] groups@[b]@ == members_below(s, keys@[b]@, n as int) by {
                if b < a {
                    assert(groups@[b] == prev[b]);
                }
            }
        }
        a = a + 1;
    }
    proof {
        let kv = keys.deep_view();
        assert(sorted_distinct_subsets(s, kv));
        assert forall|b: int| 0 <= b < kv.len() implies #[trigger] groups@[b]@ == members_below(s, kv[b], s.len() as int) by {
            assert(kv[b] == keys@[b]@);
        }
    }
    Ok(groups)
}

/// Grouping by subset puts every node in exactly one group, the group of its own subset, and
/// no group lists a node twice.
pub proof fn lemma_subset_groups_partition(subsets: Seq<Option<Seq<char>>>, keys: Seq<Seq<char>>, v: int)
    requires
        all_have_subsets(subsets),
        sorted_distinct_subsets(subsets, keys),
        subsets.len() <= usize::MAX,
        0 <= v < subsets.len(),
    ensures
        exists|a: int| 0 <= a < keys.len() && #[trigger] keys[a] == subsets[v]->0,
        forall|a: int, b: int| 0 <= a < b < keys.len() ==> #[trigger] keys[a] != #[trigger] keys[b],
        forall|a: int|
            0 <= a < keys.len() ==> (#[trigger] members_below(subsets, keys[a], subsets.len() as int).contains(
                v as usize,
            ) <==> keys[a] == subsets[v]->0),
        forall|a: int|
            0 <= a < keys.len() ==> #[trigger] members_below(subsets, keys[a], subsets.len() as int).no_duplicates(),
{
    assert(covered_by(subsets, keys, subsets.len() as int));
    assert forall|a: int, b: int| 0 <= a < b < keys.len() implies #[trigger] keys[a] != #[trigger] keys[b] by {
        lemma_text_less_irreflexive(keys[a]);
    }
    assert(exists|a: int| 0 <= a < keys.len() && subsets[v] == Some(#[trigger] keys[a])) by {
        reveal(covered_by);
    }
    assert forall|a: int| 0 <= a < keys.len() implies (#[trigger] members_below(subsets, keys[a], subsets.len() as int).contains(
        v as usize,
    ) <==> keys[a] == subsets[v]->0) by {
        lemma_positions_filter(subsets.len() as int, in_subset(subsets, keys[a]));
    }
    assert forall|a: int| 0 <= a < keys.len() implies #[trigger] members_below(subsets, keys[a], subsets.len() as int).no_duplicates() by {
        lemma_positions_filter(subsets.len() as int, in_subset(subsets, keys[a]));
    }
}

} // verus!

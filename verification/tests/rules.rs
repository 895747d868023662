use graphexa::options::{
    algorithm_from_name, aligns_horizontally, eq_ignore_ascii_case, is_known_alignment, runs_left_to_right,
    str_equals, Algorithm,
};
use graphexa::planar::{
    complete_bipartite_subgraph, complete_subgraph, contains_k33, contains_k5, edge_set, indexed_edges, is_bipartite,
    level_groups, ordered_edge, passes_planarity_guards, planar_layers,
};
use graphexa::splitmix::SplitMix64;
use graphexa::text_order::str_less;

fn ids_of(ids: &[&str]) -> Vec<String> {
    ids.iter().map(|id| id.to_string()).collect()
}

fn pairs_of(edges: &[(&str, &str)]) -> Vec<(String, String)> {
    edges.iter().map(|(s, t)| (s.to_string(), t.to_string())).collect()
}

fn complete_graph(n: usize) -> Vec<(usize, usize)> {
    let mut edges = Vec::new();
    for a in 0..n {
        for b in a + 1..n {
            edges.push((a, b));
        }
    }
    edges
}

fn complete_bipartite(left: &[usize], right: &[usize]) -> Vec<(usize, usize)> {
    let mut edges = Vec::new();
    for a in left {
        for b in right {
            edges.push((*a, *b));
        }
    }
    edges
}

#[test]
fn ordered_edge_puts_the_smaller_endpoint_first() {
    assert_eq!(ordered_edge(3, 1), (1, 3));
    assert_eq!(ordered_edge(1, 3), (1, 3));
    assert_eq!(ordered_edge(2, 2), (2, 2));
}

#[test]
fn edge_set_holds_edges_in_both_directions() {
    let set = edge_set(&[(0, 1), (2, 1)]);
    assert!(set.contains((0, 1)));
    assert!(set.contains((1, 2)));
    assert!(!set.contains((2, 1)));
    assert!(!set.contains((0, 2)));
}

#[test]
fn complete_subgraph_needs_every_pair() {
    let full = edge_set(&complete_graph(4));
    assert!(complete_subgraph(&[0, 1, 2, 3], &full));
    let mut edges = complete_graph(4);
    edges.retain(|e| *e != (1, 3));
    let partial = edge_set(&edges);
    assert!(!complete_subgraph(&[0, 1, 2, 3], &partial));
    assert!(complete_subgraph(&[0, 1, 2], &partial));
}

#[test]
fn complete_bipartite_subgraph_needs_every_cross_pair() {
    let set = edge_set(&complete_bipartite(&[0, 1], &[2, 3]));
    assert!(complete_bipartite_subgraph(&[0, 1], &[3, 2], &set));
    assert!(!complete_bipartite_subgraph(&[0, 2], &[1, 3], &set));
}

#[test]
fn k5_is_found_only_when_complete() {
    assert!(contains_k5(5, &complete_graph(5)));
    let mut edges = complete_graph(5);
    edges.pop();
    assert!(!contains_k5(5, &edges));
    assert!(!contains_k5(4, &complete_graph(4)));
    assert!(contains_k5(7, &complete_graph(7)));
}

#[test]
fn k33_is_found_in_searched_parts() {
    assert!(contains_k33(6, &complete_bipartite(&[0, 1, 2], &[3, 4, 5])));
    assert!(contains_k33(7, &complete_bipartite(&[0, 2, 3], &[1, 4, 6])));
    assert!(!contains_k33(5, &complete_graph(5)));
}

#[test]
fn k33_search_skips_parts_with_late_first_members() {
    assert!(!contains_k33(6, &complete_bipartite(&[0, 4, 5], &[1, 2, 3])));
}

#[test]
fn bipartite_detects_odd_cycles() {
    assert!(!is_bipartite(3, &[(0, 1), (1, 2), (2, 0)]));
    assert!(is_bipartite(4, &[(0, 1), (1, 2), (2, 3), (3, 0)]));
    assert!(is_bipartite(3, &[]));
    assert!(!is_bipartite(6, &[(0, 1), (3, 4), (4, 5), (5, 3)]));
}

#[test]
fn planarity_guards_reject_dense_and_complete_graphs() {
    assert!(passes_planarity_guards(4, &complete_graph(4)));
    assert!(!passes_planarity_guards(5, &complete_graph(5)));
    assert!(passes_planarity_guards(5, &[(0, 1), (1, 2), (2, 3), (3, 4), (4, 0)]));
    assert!(!passes_planarity_guards(6, &complete_bipartite(&[0, 1, 2], &[3, 4, 5])));
    assert!(!passes_planarity_guards(6, &complete_bipartite(&[0, 4, 5], &[1, 2, 3])));
}

#[test]
fn indexed_edges_drop_loops_repeats_and_unknown_ids() {
    let ids = ids_of(&["a", "b"]);
    let edges = pairs_of(&[("b", "a"), ("a", "b"), ("a", "a"), ("a", "z")]);
    assert_eq!(indexed_edges(&ids, &edges), vec![(0, 1)]);
}

#[test]
fn level_groups_collect_positions_by_level() {
    assert_eq!(level_groups(&[1, 0, 1]), vec![vec![1], vec![0, 2]]);
    assert_eq!(level_groups(&[]), vec![Vec::<usize>::new()]);
}

#[test]
fn planar_layers_follow_distance_from_first_node() {
    let ids = ids_of(&["a", "b", "c"]);
    let edges = pairs_of(&[("b", "c"), ("a", "b")]);
    assert_eq!(planar_layers(&ids, &edges).unwrap(), vec![vec![0], vec![1], vec![2]]);
}

#[test]
fn planar_layers_refuse_a_complete_graph_on_five_nodes() {
    let ids = ids_of(&["a", "b", "c", "d", "e"]);
    let mut edges = Vec::new();
    for a in 0..5 {
        for b in a + 1..5 {
            edges.push((ids[a].clone(), ids[b].clone()));
        }
    }
    assert!(planar_layers(&ids, &edges).is_err());
    assert!(planar_layers(&Vec::new(), &Vec::new()).unwrap().is_empty());
}

#[test]
fn algorithm_names_match_exactly() {
    assert_eq!(algorithm_from_name("bfs"), Algorithm::Bfs);
    assert_eq!(algorithm_from_name("kamada-kawai"), Algorithm::KamadaKawai);
    assert_eq!(algorithm_from_name("kamada_kawai"), Algorithm::KamadaKawai);
    assert_eq!(algorithm_from_name("fruchterman_reingold"), Algorithm::Spring);
    assert_eq!(algorithm_from_name("multipartite"), Algorithm::Multipartite);
    assert_eq!(algorithm_from_name("Grid"), Algorithm::Layered);
    assert_eq!(algorithm_from_name("unknown"), Algorithm::Layered);
    assert_eq!(algorithm_from_name(""), Algorithm::Layered);
}

#[test]
fn direction_and_alignment_ignore_ascii_case() {
    assert!(runs_left_to_right("lr"));
    assert!(runs_left_to_right("Right"));
    assert!(!runs_left_to_right("DOWN"));
    assert!(aligns_horizontally("Horizontal"));
    assert!(!aligns_horizontally("vertical"));
    assert!(is_known_alignment("VERTICAL"));
    assert!(!is_known_alignment("diagonal"));
}

#[test]
fn ascii_case_comparison() {
    assert!(eq_ignore_ascii_case("AbC", "aBc"));
    assert!(!eq_ignore_ascii_case("a", "ab"));
    assert!(!eq_ignore_ascii_case("é", "É"));
    assert!(str_equals("same", "same"));
    assert!(!str_equals("same", "Same"));
}

#[test]
fn text_order_is_lexicographic() {
    assert!(str_less("apple", "banana"));
    assert!(!str_less("b", "a"));
    assert!(str_less("ab", "abc"));
    assert!(!str_less("abc", "ab"));
    assert!(!str_less("a", "a"));
    assert!(str_less("B", "a"));
}

#[test]
fn splitmix_reproduces_known_outputs() {
    let mut rng = SplitMix64::new(0);
    assert_eq!(rng.next_raw(), 0xe220a8397b1dcdaf);
    assert_eq!(rng.state, 0x9e3779b97f4a7c15);
    assert_eq!(rng.next_raw(), 0x6e789e6aa1b965f4);
}

#[test]
fn splitmix_same_seed_same_stream() {
    let mut first = SplitMix64::new(42);
    let mut second = SplitMix64::new(42);
    for _ in 0..5 {
        assert_eq!(first.next_raw(), second.next_raw());
    }
    let mut other = SplitMix64::new(43);
    assert_ne!(SplitMix64::new(42).next_raw(), other.next_raw());
}

#[test]
fn spring_methods_are_exact_names() {
    assert!(graphexa::options::is_spring_method("auto"));
    assert!(graphexa::options::is_spring_method("energy"));
    assert!(graphexa::options::is_spring_method("force"));
    assert!(!graphexa::options::is_spring_method("Force"));
    assert!(!graphexa::options::is_spring_method("spring"));
}

use graphexa::bfs::{bfs_layers, build_adjacency};
use graphexa::graph::{adjacency, index_of, resolve_edges};
use graphexa::grid::{grid_cell, grid_columns};
use graphexa::layered::{has_source_node, in_degrees, layered_layers, longest_path_ranks, outgoing_lists};
use graphexa::multipartite::{group_by_subset, layers_from_groups, SubsetError};
use graphexa::radial::{degrees, radial_order};
use graphexa::shell::resolve_shells;
use graphexa::transform_locked::{anchor_cell, fallback_cell, first_placed_in, locked_plan, LockedPlan, Placement};
use graphexa::traversal::graph_levels;

fn names(ids: &[&str]) -> Vec<String> {
    ids.iter().map(|id| id.to_string()).collect()
}

fn links(edges: &[(&str, &str)]) -> Vec<(String, String)> {
    edges.iter().map(|(s, t)| (s.to_string(), t.to_string())).collect()
}

#[test]
fn layered_places_target_one_layer_below_source() {
    let layers = layered_layers(&names(&["a", "b"]), &links(&[("a", "b")]));
    assert_eq!(layers, vec![vec![0], vec![1]]);
}

#[test]
fn layered_graph_of_two_nodes_keeps_first_on_top() {
    let layers = layered_layers(&names(&["a", "b"]), &links(&[("a", "b")]));
    assert_eq!(layers[0], vec![0]);
    assert_eq!(layers[1], vec![1]);
}

#[test]
fn layered_ranks_follow_longest_path() {
    let ids = names(&["a", "b", "c", "d"]);
    let edges = links(&[("a", "b"), ("a", "c"), ("b", "d"), ("c", "d"), ("a", "d")]);
    assert_eq!(layered_layers(&ids, &edges), vec![vec![0], vec![1, 2], vec![3]]);
}

#[test]
fn layered_skips_edges_with_unknown_endpoints() {
    let ids = names(&["a", "b", "c"]);
    let edges = links(&[("a", "b"), ("x", "c"), ("b", "y")]);
    assert_eq!(layered_layers(&ids, &edges), vec![vec![0, 2], vec![1]]);
}

#[test]
fn layered_leaves_cycle_behind_its_source() {
    let ids = names(&["s", "x", "y"]);
    let edges = links(&[("s", "x"), ("x", "y"), ("y", "x")]);
    assert_eq!(layered_layers(&ids, &edges), vec![vec![0, 2], vec![1]]);
}

#[test]
fn layered_of_no_nodes_is_empty() {
    let layers = layered_layers(&Vec::new(), &Vec::new());
    assert!(layers.is_empty());
}

#[test]
fn source_node_found_only_outside_full_cycles() {
    assert!(has_source_node(&names(&["a", "b"]), &links(&[("a", "b")])));
    assert!(!has_source_node(&names(&["a", "b"]), &links(&[("a", "b"), ("b", "a")])));
    assert!(has_source_node(&Vec::new(), &Vec::new()));
}

#[test]
fn longest_path_ranks_on_a_triangle() {
    let edges = [(0, 1), (1, 2), (0, 2)];
    assert_eq!(longest_path_ranks(3, &edges), vec![0, 1, 2]);
    assert_eq!(in_degrees(3, &edges), vec![0, 1, 2]);
    assert_eq!(outgoing_lists(3, &edges), vec![vec![1, 2], vec![2], vec![]]);
}

#[test]
fn index_of_takes_the_last_node_with_an_id() {
    let ids = names(&["a", "b", "a"]);
    assert_eq!(index_of(&ids, &"a".to_string()), Some(2));
    assert_eq!(index_of(&ids, &"b".to_string()), Some(1));
    assert_eq!(index_of(&ids, &"c".to_string()), None);
}

#[test]
fn resolve_edges_drops_unknown_endpoints() {
    let ids = names(&["a", "b", "c"]);
    let edges = links(&[("a", "b"), ("x", "c"), ("c", "a")]);
    assert_eq!(resolve_edges(&ids, &edges), vec![(0, 1), (2, 0)]);
}

#[test]
fn adjacency_lists_both_directions() {
    assert_eq!(adjacency(3, &[(0, 1), (1, 2)]), vec![vec![1], vec![0, 2], vec![1]]);
    assert_eq!(adjacency(3, &[(0, 1), (2, 1), (1, 1)]), vec![vec![1], vec![0, 2, 1, 1], vec![1]]);
}

#[test]
fn adjacency_is_symmetric_on_a_sample() {
    let adj = adjacency(4, &[(0, 1), (3, 1), (2, 0)]);
    for v in 0..4 {
        for w in 0..4 {
            assert_eq!(adj[v].contains(&w), adj[w].contains(&v));
        }
    }
}

#[test]
fn bfs_layers_along_a_path() {
    let ids = names(&["0", "1", "2", "3"]);
    let edges = links(&[("0", "1"), ("1", "2"), ("2", "3")]);
    let adj = build_adjacency(&ids, &edges);
    assert_eq!(bfs_layers(0, &adj, 4), vec![vec![0], vec![1], vec![2], vec![3]]);
}

#[test]
fn bfs_layers_start_in_the_middle() {
    let ids = names(&["0", "1", "2"]);
    let edges = links(&[("0", "1"), ("1", "2")]);
    let adj = build_adjacency(&ids, &edges);
    assert_eq!(bfs_layers(1, &adj, 3), vec![vec![1], vec![0, 2]]);
}

#[test]
fn bfs_layers_put_unreached_nodes_first() {
    let adj = adjacency(4, &[(0, 2), (0, 1)]);
    assert_eq!(bfs_layers(0, &adj, 4), vec![vec![0, 3], vec![2, 1]]);
}

#[test]
fn bfs_layers_hold_every_node_once() {
    let adj = adjacency(6, &[(0, 1), (1, 2), (2, 0), (3, 4)]);
    let layers = bfs_layers(2, &adj, 6);
    let mut seen = vec![0; 6];
    for layer in &layers {
        for v in layer {
            seen[*v] += 1;
        }
    }
    assert_eq!(seen, vec![1; 6]);
    assert_eq!(layers, vec![vec![2, 3, 4, 5], vec![1, 0]]);
}

#[test]
fn graph_levels_restart_in_each_component() {
    let adj = adjacency(5, &[(0, 1), (1, 2), (3, 4)]);
    assert_eq!(graph_levels(&adj), vec![0, 1, 2, 0, 1]);
}

#[test]
fn graph_levels_keep_levels_of_earlier_searches() {
    let lists = vec![vec![1], vec![], vec![1]];
    assert_eq!(graph_levels(&lists), vec![0, 1, 0]);
}

#[test]
fn neighbour_levels_differ_by_at_most_one() {
    let adj = adjacency(6, &[(0, 1), (1, 2), (2, 3), (3, 0), (4, 5), (1, 3)]);
    let levels = graph_levels(&adj);
    for v in 0..6 {
        for w in &adj[v] {
            assert!(levels[*w] <= levels[v] + 1);
        }
    }
}

#[test]
fn grid_columns_are_the_ceiling_square_root() {
    assert_eq!(grid_columns(0), 0);
    assert_eq!(grid_columns(1), 1);
    assert_eq!(grid_columns(4), 2);
    assert_eq!(grid_columns(5), 3);
    assert_eq!(grid_columns(9), 3);
    assert_eq!(grid_columns(10), 4);
}

#[test]
fn grid_places_four_nodes_in_two_rows() {
    let columns = grid_columns(4);
    assert_eq!(grid_cell(0, columns), (0, 0));
    assert_eq!(grid_cell(1, columns), (0, 1));
    assert_eq!(grid_cell(2, columns), (1, 0));
    assert_eq!(grid_cell(3, columns), (1, 1));
}

#[test]
fn grid_cells_are_distinct() {
    let count = 11;
    let columns = grid_columns(count);
    let mut cells = Vec::new();
    for index in 0..count {
        let cell = grid_cell(index, columns);
        assert!(cell.0 < columns && cell.1 < columns);
        assert!(!cells.contains(&cell));
        cells.push(cell);
    }
}

#[test]
fn degrees_count_each_known_endpoint() {
    let ids = names(&["a", "b", "c"]);
    let edges = links(&[("a", "b"), ("a", "c"), ("x", "a"), ("b", "y")]);
    assert_eq!(degrees(&ids, &edges), vec![3, 2, 1]);
}

#[test]
fn radial_order_puts_hubs_first_keeping_ties_in_order() {
    assert_eq!(radial_order(&[1, 3, 1, 2]), vec![1, 3, 0, 2]);
    assert_eq!(radial_order(&[]), Vec::<usize>::new());
    assert_eq!(radial_order(&[0, 0, 0]), vec![0, 1, 2]);
}

#[test]
fn shells_without_a_list_hold_every_node() {
    let ids = names(&["a", "b", "c"]);
    assert_eq!(resolve_shells(&ids, None), vec![vec![0, 1, 2]]);
}

#[test]
fn shells_append_the_unnamed_nodes() {
    let ids = names(&["a", "b", "c"]);
    let list = vec![names(&["b"]), names(&["zz"]), names(&["a"])];
    assert_eq!(resolve_shells(&ids, Some(&list)), vec![vec![1], vec![0], vec![2]]);
    let full = vec![names(&["a", "b", "c"])];
    assert_eq!(resolve_shells(&ids, Some(&full)), vec![vec![0, 1, 2]]);
}

#[test]
fn multipartite_layers_follow_subset_lists() {
    let ids = names(&["a", "b", "c"]);
    let groups = vec![names(&["a"]), names(&["b", "c"])];
    assert_eq!(layers_from_groups(&ids, &groups).unwrap(), vec![vec![0], vec![1, 2]]);
}

#[test]
fn multipartite_rejects_unknown_ids() {
    let ids = names(&["a", "b", "c"]);
    let groups = vec![names(&["a"]), names(&["q", "r"])];
    match layers_from_groups(&ids, &groups) {
        Err(SubsetError::UnknownId(id)) => assert_eq!(id, "q"),
        other => panic!("unexpected result {:?}", other),
    }
}

#[test]
fn multipartite_rejects_uncovered_nodes() {
    let ids = names(&["a", "b", "c"]);
    let groups = vec![names(&["a", "c"])];
    assert!(matches!(layers_from_groups(&ids, &groups), Err(SubsetError::Uncovered)));
}

#[test]
fn multipartite_groups_by_sorted_subset() {
    let subsets = vec![Some("y".to_string()), Some("x".to_string()), Some("y".to_string())];
    assert_eq!(group_by_subset(&subsets).unwrap(), vec![vec![1], vec![0, 2]]);
}

#[test]
fn multipartite_needs_a_subset_on_every_node() {
    let subsets = vec![Some("x".to_string()), None];
    assert!(matches!(group_by_subset(&subsets), Err(SubsetError::MissingSubset)));
}

#[test]
fn locked_plan_keeps_fully_placed_drawings() {
    let adj = adjacency(2, &[(0, 1)]);
    assert!(matches!(locked_plan(&adj, &[true, true]), LockedPlan::Keep));
    assert!(matches!(locked_plan(&[], &[]), LockedPlan::Keep));
}

#[test]
fn locked_plan_uses_a_grid_when_nothing_is_placed() {
    let adj = adjacency(2, &[(0, 1)]);
    assert!(matches!(locked_plan(&adj, &[false, false]), LockedPlan::Grid));
}

#[test]
fn locked_plan_anchors_free_nodes_to_placed_neighbours() {
    let adj = adjacency(4, &[(1, 0), (0, 2)]);
    match locked_plan(&adj, &[true, false, false, false]) {
        LockedPlan::Place(list) => {
            assert_eq!(list.len(), 4);
            assert!(matches!(list[0], Placement::Fixed));
            assert!(matches!(list[1], Placement::Anchored { anchor: 0, order: 0, total: 2 }));
            assert!(matches!(list[2], Placement::Anchored { anchor: 0, order: 1, total: 2 }));
            assert!(matches!(list[3], Placement::Fallback { order: 0 }));
        },
        _ => panic!("expected placements"),
    }
}

#[test]
fn anchor_cells_wrap_after_five_columns_from_ten_nodes() {
    assert_eq!(anchor_cell(7, 12), (1, 2));
    assert_eq!(anchor_cell(1, 3), (0, 1));
    assert_eq!(anchor_cell(0, 0), (0, 0));
    assert_eq!(anchor_cell(8, 9), (0, 8));
}

#[test]
fn fallback_cells_fill_a_growing_square() {
    assert_eq!(fallback_cell(0), (0, 0));
    assert_eq!(fallback_cell(1), (0, 1));
    assert_eq!(fallback_cell(4), (1, 1));
}

#[test]
fn first_placed_member_of_a_list() {
    assert_eq!(first_placed_in(&vec![1, 2, 0], &[true, false, true]), Some(2));
    assert_eq!(first_placed_in(&vec![1], &[true, false, true]), None);
}

use debruijn::maximize_cycle_labeling;
use debruijn::to_str_with_base;
use debruijn::Edge;
use debruijn::Graph;
use debruijn::GraphError;

fn labeled_in_order(edges: &[Edge]) -> Vec<Edge> {
    edges
        .iter()
        .enumerate()
        .map(|(k, e)| (e.0, e.1, e.2, k as isize))
        .collect()
}

fn with_nodes(nb_nodes: usize, edges: Vec<Edge>) -> Graph {
    Graph::from_edges(nb_nodes, edges).unwrap()
}

#[test]
fn new_builds_three_nodes_and_nine_edges() {
    let g = Graph::new(2, 3).unwrap();
    assert_eq!(g.nb_nodes(), 3);
    assert_eq!(g.edges().len(), 9);
    let expected: Vec<Edge> = vec![
        (0, 0, 0, -1),
        (0, 1, 1, -1),
        (0, 2, 2, -1),
        (1, 0, 0, -1),
        (1, 1, 1, -1),
        (1, 2, 2, -1),
        (2, 0, 0, -1),
        (2, 1, 1, -1),
        (2, 2, 2, -1),
    ];
    assert_eq!(g.edges(), &expected);
}

#[test]
fn new_gives_every_node_nb_states_outgoing_edges() {
    let g = Graph::new(3, 2).unwrap();
    assert_eq!(g.nb_nodes(), 4);
    assert_eq!(g.edges().len(), 8);
    for i in 0..4 {
        assert_eq!(g.node_edges(i), &vec![2 * i, 2 * i + 1]);
        let out = g.edges().iter().filter(|e| e.0 == i).count();
        assert_eq!(out, 2);
    }
    assert_eq!(g.edges()[5], (2, 1, 1, -1));
    assert_eq!(g.edges()[7], (3, 3, 1, -1));
}

#[test]
fn new_with_one_symbol_has_one_self_loop() {
    let g = Graph::new(4, 1).unwrap();
    assert_eq!(g.nb_nodes(), 1);
    assert_eq!(g.edges(), &vec![(0, 0, 0, -1)]);
}

#[test]
fn new_with_neighborhood_one_has_a_single_node() {
    let g = Graph::new(1, 3).unwrap();
    assert_eq!(g.nb_nodes(), 1);
    assert_eq!(g.edges().len(), 3);
    assert!(g.edges().iter().all(|e| e.0 == 0 && e.1 == 0));
}

#[test]
fn new_rejects_zero_parameters() {
    assert_eq!(Graph::new(0, 3).err(), Some(GraphError::InvalidParameters));
    assert_eq!(Graph::new(3, 0).err(), Some(GraphError::InvalidParameters));
    assert_eq!(Graph::new(0, 0).err(), Some(GraphError::InvalidParameters));
}

#[test]
fn new_rejects_too_many_edges() {
    assert_eq!(Graph::new(200, 2).err(), Some(GraphError::InvalidParameters));
    assert_eq!(Graph::new(2, usize::MAX).err(), Some(GraphError::InvalidParameters));
}

#[test]
fn from_edges_rejects_out_of_range_edges() {
    assert!(Graph::from_edges(2, vec![(0, 2, 0, -1)]).is_err());
    assert!(Graph::from_edges(2, vec![(2, 0, 0, -1)]).is_err());
    assert!(Graph::from_edges(2, vec![(0, 1, 0, -2)]).is_err());
    assert!(Graph::from_edges(2, vec![(0, 1, 0, 7)]).is_ok());
}

#[test]
fn from_edges_lists_outgoing_edges() {
    let g = with_nodes(3, vec![(1, 0, 0, -1), (0, 2, 0, -1), (1, 1, 1, -1)]);
    assert_eq!(g.node_edges(0), &vec![1]);
    assert_eq!(g.node_edges(1), &vec![0, 2]);
    assert!(g.node_edges(2).is_empty());
}

#[test]
fn fully_labeled_three_state_graph_has_nine_cycle_edges() {
    let g = Graph::new(2, 3).unwrap();
    let labeled = with_nodes(g.nb_nodes(), labeled_in_order(g.edges()));
    assert_eq!(labeled.nb_edges_in_cycle(), 9);
}

#[test]
fn unlabeled_graph_has_no_cycle_edges() {
    let g = Graph::new(2, 3).unwrap();
    assert_eq!(g.nb_edges_in_cycle(), 0);
    let r = g.reachability();
    assert_eq!(r, vec![vec![false; 3]; 3]);
}

#[test]
fn single_edge_is_never_on_a_cycle() {
    let inactive = with_nodes(2, vec![(1, 0, 1, -1)]);
    assert_eq!(inactive.nb_edges_in_cycle(), 0);
    let active = with_nodes(2, vec![(1, 0, 1, 0)]);
    assert_eq!(active.nb_edges_in_cycle(), 0);
    assert_eq!(active.reachability(), vec![vec![false, false], vec![true, false]]);
}

#[test]
fn edge_into_a_dead_end_is_not_on_a_cycle() {
    let edges = vec![
        (0, 0, 0, -1),
        (0, 1, 1, -1),
        (1, 0, 0, -1),
        (1, 1, 1, -1),
        (1, 2, 2, -1),
        (2, 2, 2, -1),
    ];
    let g = with_nodes(3, labeled_in_order(&edges));
    assert_eq!(g.nb_edges_in_cycle(), 5);
    let r = g.reachability();
    assert!(r[1][2]);
    assert!(!r[2][1]);
    assert!(!r[2][0]);
}

#[test]
fn self_loop_counts_only_when_active() {
    let g = with_nodes(2, vec![(0, 0, 0, 0), (1, 1, 0, -1), (0, 1, 1, 1)]);
    assert_eq!(g.nb_edges_in_cycle(), 1);
}

#[test]
fn reachability_of_two_connected_nodes() {
    let edges = vec![(0, 0, 0, -1), (0, 1, 1, -1), (1, 0, 0, -1), (1, 1, 1, -1)];
    let g = with_nodes(2, labeled_in_order(&edges));
    assert_eq!(g.reachability(), vec![vec![true, true], vec![true, true]]);
}

fn nine_node_edges() -> Vec<Edge> {
    vec![
        (0, 0, 0, -1),
        (0, 1, 1, -1),
        (0, 2, 2, -1),
        (1, 3, 0, -1),
        (1, 4, 1, -1),
        (1, 5, 2, -1),
        (2, 6, 0, -1),
        (2, 7, 1, -1),
        (2, 8, 2, -1),
        (3, 0, 0, -1),
        (3, 1, 1, -1),
        (3, 2, 2, -1),
        (4, 3, 0, -1),
        (4, 4, 1, -1),
        (4, 5, 2, -1),
        (5, 6, 0, -1),
        (5, 7, 1, -1),
        (5, 8, 2, -1),
        (6, 0, 0, -1),
        (6, 1, 1, -1),
        (6, 2, 2, -1),
        (7, 3, 0, -1),
        (7, 4, 1, -1),
        (7, 5, 2, -1),
        (8, 6, 0, -1),
        (8, 7, 1, -1),
        (8, 8, 2, -1),
    ]
}

#[test]
fn reachability_of_nine_node_graph_is_full() {
    let g = with_nodes(9, labeled_in_order(&nine_node_edges()));
    assert_eq!(g.reachability(), vec![vec![true; 9]; 9]);
    assert_eq!(g.nb_edges_in_cycle(), 27);
}

#[test]
fn reachability_after_redirecting_one_edge() {
    let mut edges = nine_node_edges();
    edges[8] = (2, 4, 2, -1);
    let g = with_nodes(9, labeled_in_order(&edges));
    assert_eq!(g.reachability(), vec![vec![true; 9]; 9]);
}

#[test]
fn reachability_without_the_edges_into_a_node() {
    let mut edges = labeled_in_order(&nine_node_edges());
    edges[8].3 = -1;
    edges[17].3 = -1;
    let g = with_nodes(9, edges);
    let mut expected = vec![vec![true; 9]; 9];
    for i in 0..8 {
        expected[i][8] = false;
    }
    assert_eq!(g.reachability(), expected);
    assert_eq!(g.nb_edges_in_cycle(), 23);
}

#[test]
fn reachability_is_the_same_twice_and_without_inactive_edges() {
    let mut edges = labeled_in_order(&nine_node_edges());
    for k in [0, 4, 9, 13, 20, 26] {
        edges[k].3 = -1;
    }
    let g = with_nodes(9, edges.clone());
    let first = g.reachability();
    let second = g.reachability();
    assert_eq!(first, second);
    let active: Vec<Edge> = edges.into_iter().filter(|e| e.3 >= 0).collect();
    let pruned = with_nodes(9, active);
    assert_eq!(pruned.reachability(), first);
    assert_eq!(pruned.nb_edges_in_cycle(), g.nb_edges_in_cycle());
}

#[test]
fn one_round_labels_the_first_improving_edge() {
    let mut g = with_nodes(2, vec![(0, 1, 0, -1), (0, 0, 1, -1), (1, 0, 0, -1)]);
    let mut next: isize = 0;
    let mut best: usize = 0;
    let success = g.find_cycle_at_size(&mut next, &mut best, 1);
    assert!(success);
    assert_eq!(best, 1);
    assert_eq!(next, 1);
    assert_eq!(g.edges(), &vec![(0, 1, 0, -1), (0, 0, 1, 0), (1, 0, 0, -1)]);
}

#[test]
fn failed_round_changes_nothing() {
    let mut g = with_nodes(2, vec![(0, 1, 0, -1)]);
    let mut next: isize = 0;
    let mut best: usize = 0;
    let success = g.find_cycle_at_size(&mut next, &mut best, 1);
    assert!(!success);
    assert_eq!(best, 0);
    assert_eq!(next, 0);
    assert_eq!(g.edges(), &vec![(0, 1, 0, -1)]);
}

#[test]
fn two_label_round_closes_a_two_edge_cycle() {
    let mut g = with_nodes(2, vec![(0, 1, 0, -1), (1, 0, 0, -1)]);
    let mut next: isize = 0;
    let mut best: usize = 0;
    assert!(!g.find_cycle_at_size(&mut next, &mut best, 1));
    assert!(g.find_cycle_at_size(&mut next, &mut best, 2));
    assert_eq!(best, 2);
    assert_eq!(next, 2);
    assert_eq!(g.edges(), &vec![(0, 1, 0, 0), (1, 0, 0, 1)]);
}

#[test]
fn best_count_never_decreases_over_rounds() {
    let mut g = Graph::new(3, 2).unwrap();
    let mut next: isize = 0;
    let mut best: usize = 0;
    let mut last = 0;
    for size in 1..=g.edges().len() {
        g.find_cycle_at_size(&mut next, &mut best, size);
        assert!(best >= last);
        assert_eq!(best, g.nb_edges_in_cycle());
        last = best;
    }
}

fn labels_are_distinct_from_zero(edges: &[Edge]) -> bool {
    let mut labels: Vec<isize> = edges.iter().map(|e| e.3).filter(|l| *l >= 0).collect();
    labels.sort();
    labels.iter().enumerate().all(|(k, l)| *l == k as isize)
}

#[test]
fn order_maximise_cycle_reports_the_count_it_leaves() {
    let mut g = Graph::new(2, 2).unwrap();
    let best = g.order_maximise_cycle();
    assert_eq!(best, g.nb_edges_in_cycle());
    assert_eq!(best, 4);
    assert!(labels_are_distinct_from_zero(g.edges()));
}

#[test]
fn maximize_cycle_labeling_on_three_states() {
    let g = maximize_cycle_labeling(2, 3).unwrap();
    assert_eq!(g.edges().len(), 9);
    assert_eq!(g.nb_edges_in_cycle(), 8);
    assert_eq!(g.edges()[5], (1, 2, 2, -1));
    assert!(labels_are_distinct_from_zero(g.edges()));
    assert_eq!(maximize_cycle_labeling(0, 3).err(), Some(GraphError::InvalidParameters));
}

#[test]
fn maximize_cycle_labeling_on_one_node() {
    let g = maximize_cycle_labeling(1, 1).unwrap();
    assert_eq!(g.edges(), &vec![(0, 0, 0, 0)]);
    assert_eq!(g.nb_edges_in_cycle(), 1);
}

#[test]
fn render_writes_one_line_per_edge() {
    let g = with_nodes(2, vec![(0, 1, 1, 0), (1, 0, 0, -1)]);
    let mut out = String::new();
    g.render_to(&mut out);
    assert_eq!(out, "digraph deBruijn {\n\t0 -> 1 [label=0]\n\t1 -> 0 [label=-1]\n}\n");
}

#[test]
fn render_appends_to_existing_text() {
    let g = with_nodes(12, vec![(10, 11, 0, 123)]);
    let mut out = String::from("x");
    g.render_to(&mut out);
    assert_eq!(out, "xdigraph deBruijn {\n\t10 -> 11 [label=123]\n}\n");
}

#[test]
fn render_of_empty_graph() {
    let g = with_nodes(0, vec![]);
    let mut out = String::new();
    g.render_to(&mut out);
    assert_eq!(out, "digraph deBruijn {\n}\n");
}

#[test]
fn render_then_read_back_gives_the_same_triples() {
    let g = maximize_cycle_labeling(3, 2).unwrap();
    let mut out = String::new();
    g.render_to(&mut out);
    let lines: Vec<&str> = out.lines().collect();
    assert_eq!(lines.len(), g.edges().len() + 2);
    for (line, e) in lines[1..lines.len() - 1].iter().zip(g.edges().iter()) {
        let expected = format!("\t{} -> {} [label={}]", e.0, e.1, e.3);
        assert_eq!(*line, expected);
    }
}

#[test]
fn base_strings() {
    assert_eq!(to_str_with_base(5, 2, 4), "0101");
    assert_eq!(to_str_with_base(35, 36, 0), "Z");
    assert_eq!(to_str_with_base(0, 3, 2), "00");
    assert_eq!(to_str_with_base(0, 3, 0), "");
    assert_eq!(to_str_with_base(10, 16, 1), "A");
    assert_eq!(to_str_with_base(255, 16, 1), "FF");
    assert_eq!(to_str_with_base(7, 3, 2), "21");
}

#[test]
fn search_on_one_node_with_two_symbols_keeps_both_loops() {
    let mut g = Graph::new(1, 2).unwrap();
    let best = g.order_maximise_cycle();
    assert_eq!(best, 2);
    assert_eq!(g.edges(), &vec![(0, 0, 0, 0), (0, 0, 1, 1)]);
}

#[test]
fn search_on_two_nodes_with_two_symbols() {
    let mut g = Graph::new(2, 2).unwrap();
    g.order_maximise_cycle();
    assert_eq!(g.edges(), &vec![(0, 0, 0, 0), (0, 1, 1, 2), (1, 0, 0, 3), (1, 1, 1, 1)]);
}

#[test]
fn search_gives_the_same_labeling_twice() {
    let mut g1 = Graph::new(3, 2).unwrap();
    let mut g2 = Graph::new(3, 2).unwrap();
    let b1 = g1.order_maximise_cycle();
    let b2 = g2.order_maximise_cycle();
    assert_eq!(b1, b2);
    assert_eq!(g1.edges(), g2.edges());
}

#[test]
fn round_with_every_edge_labeled_changes_nothing() {
    let mut g = with_nodes(2, vec![(0, 1, 0, 0), (1, 0, 0, 1)]);
    let mut next: isize = 2;
    let mut best: usize = 2;
    assert!(!g.find_cycle_at_size(&mut next, &mut best, 1));
    assert!(!g.find_cycle_at_size(&mut next, &mut best, 3));
    assert_eq!(next, 2);
    assert_eq!(best, 2);
    assert_eq!(g.edges(), &vec![(0, 1, 0, 0), (1, 0, 0, 1)]);
}

use twinwidth::algo::greedy::{replay_width, Greedy};
use twinwidth::algo::Algo;
use twinwidth::graph::Graph;

#[test]
fn test_new_greedy_with_graph() {
    let graph = Graph::from_edges(vec![(1, 2), (2, 3)]);
    let greedy = Greedy::new_with_graph(graph);

    assert_eq!(greedy.get_contraction_sequence(), &Vec::new());
    assert_eq!(greedy.get_graph(), &Graph::from_edges(vec![(1, 2), (2, 3)]));
}

#[test]
fn test_solve_two_nodes() {
    let graph = Graph::from_edges(vec![(1, 2)]);
    let mut greedy = Greedy::new_with_graph(graph);

    greedy.solve();

    assert!(greedy
        .get_contraction_sequence()
        .iter()
        .all(|item| vec![(1, 2), (2, 1)].contains(item)));
    assert_eq!(greedy.get_max_red_degree(), 0);
}

#[test]
fn test_solve_x_nodes_cograph() {
    let mut graph = Graph::from_edges(vec![(1, 2), (2, 3), (3, 4), (4, 1)]);
    graph.add_node(5);
    let mut greedy = Greedy::new_with_graph(graph);

    greedy.solve();

    assert_eq!(greedy.get_contraction_sequence().len(), 4);
    assert_eq!(greedy.get_graph().get_all_nodes().len(), 1);
    assert_eq!(
        greedy
            .get_graph()
            .get_neighbours(greedy.get_graph().get_all_nodes()[0])
            .unwrap()
            .len(),
        0
    );
    assert_eq!(greedy.get_max_red_degree(), 0);
}

#[test]
fn test_solve_x_nodes_no_cograph() {
    let graph = Graph::from_edges(vec![(1, 2), (2, 3), (3, 4), (4, 1), (5, 2)]);
    let mut greedy = Greedy::new_with_graph(graph);

    greedy.solve();

    assert_eq!(greedy.get_contraction_sequence().len(), 4);
    assert_eq!(greedy.get_graph().get_all_nodes().len(), 1);
    assert_eq!(
        greedy
            .get_graph()
            .get_neighbours(greedy.get_graph().get_all_nodes()[0])
            .unwrap()
            .len(),
        0
    );
    assert_eq!(greedy.get_max_red_degree(), 1);
}

#[test]
fn test_solve_single_edge_sequence_and_width() {
    let graph = Graph::from_edges(vec![(1, 2)]);
    let mut greedy = Greedy::new_with_graph(graph);

    let (sequence, width) = greedy.solve();

    assert_eq!(sequence.len(), 1);
    assert_eq!(width, 0);
}

#[test]
fn test_solve_is_deterministic() {
    let edges = vec![(1, 2), (2, 3), (3, 4), (4, 1), (5, 2)];

    let mut first = Greedy::new_with_graph(Graph::from_edges(edges.clone()));
    let mut second = Greedy::new_with_graph(Graph::from_edges(edges));

    let (seq_a, width_a) = first.solve();
    let (seq_b, width_b) = second.solve();

    assert_eq!(seq_a, seq_b);
    assert_eq!(width_a, width_b);
    assert_eq!(first.output_tww_str(), second.output_tww_str());
}

#[test]
fn test_output_tww_str_single_step() {
    let graph = Graph::from_edges(vec![(1, 2)]);
    let mut greedy = Greedy::new_with_graph(graph);

    greedy.solve();

    assert_eq!(greedy.output_tww_str(), "1 2\n");
}

#[test]
fn test_output_tww_str_multi_digit() {
    let graph = Graph::from_edges(vec![(10, 234)]);
    let mut greedy = Greedy::new_with_graph(graph);

    greedy.solve();

    assert_eq!(greedy.output_tww_str(), "10 234\n");
}

#[test]
fn test_replay_agrees_with_solver() {
    let edges = vec![(1, 2), (2, 3), (3, 4), (4, 1), (5, 2), (5, 3), (6, 1)];

    let mut greedy = Greedy::new_with_graph(Graph::from_edges(edges.clone()));
    let (sequence, width) = greedy.solve();

    let replay = replay_width(&Graph::from_edges(edges), &sequence);
    assert_eq!(replay, Some(width));
}

#[test]
fn test_replay_rejects_unknown_node() {
    let graph = Graph::from_edges(vec![(1, 2)]);

    assert_eq!(replay_width(&graph, &vec![(1, 3)]), None);
    assert_eq!(replay_width(&graph, &vec![(1, 1)]), None);
    assert_eq!(replay_width(&graph, &vec![(1, 2)]), Some(0));
}

#[test]
fn test_twins_contract_for_free() {
    // Nodes 1 and 2 have the same neighbourhood, so the first contraction
    // is free and the whole run finishes with width 0.
    let graph = Graph::from_edges(vec![(1, 3), (2, 3)]);
    let mut greedy = Greedy::new_with_graph(graph);

    let (sequence, width) = greedy.solve();

    assert_eq!(sequence.len(), 2);
    assert_eq!(width, 0);
}

#[test]
fn test_width_monotone_under_larger_start() {
    let edges = vec![(1, 2), (2, 3), (3, 4), (4, 1), (5, 2)];
    let mut greedy = Greedy::new_with_graph(Graph::from_edges(edges));

    let before = greedy.get_max_red_degree();
    let (_, width) = greedy.solve();

    assert!(width >= before);
}

#[test]
fn test_solve_from_gr_matches_solve_from_edges() {
    let gr = "1 2\n2 3\n3 4\n4 1\n5 2";
    let mut from_text = Greedy::new_with_graph(Graph::from_gr(gr));
    let mut from_list = Greedy::new_with_graph(Graph::from_edges(vec![
        (1, 2),
        (2, 3),
        (3, 4),
        (4, 1),
        (5, 2),
    ]));

    let (seq_a, width_a) = from_text.solve();
    let (seq_b, width_b) = from_list.solve();

    assert_eq!(seq_a, seq_b);
    assert_eq!(width_a, width_b);
}

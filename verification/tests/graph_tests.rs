use twinwidth::graph::{Graph, GraphError};

#[test]
fn test_newgraph() {
    let graph = Graph::new();

    assert_eq!(graph.get_all_nodes().len(), 0);
}

#[test]
fn test_add_one_node() {
    let mut graph = Graph::new();

    graph.add_node(1);

    assert_eq!(graph.get_all_nodes().len(), 1);
}

#[test]
fn test_add_two_nodes() {
    let mut graph = Graph::new();

    graph.add_node(1);
    graph.add_node(2);

    assert_eq!(graph.get_all_nodes().len(), 2);
}

#[test]
fn test_add_edge() {
    let mut graph = Graph::new();

    graph.add_node(1);
    graph.add_node(2);

    assert!(graph.add_edge(1, 2).unwrap());
    assert!(!graph.add_edge(1, 2).unwrap());

    assert_eq!(graph.get_neighbours(1).unwrap(), &vec![2]);
    assert_eq!(graph.get_neighbours(2).unwrap(), &vec![1]);
}

#[test]
fn test_add_edge_unknown_first_node() {
    let mut graph = Graph::new();
    graph.add_node(2);

    assert_eq!(graph.add_edge(1, 2), Err(GraphError::UnknownNode));
}

#[test]
fn test_add_edge_unknown_second_node() {
    let mut graph = Graph::new();
    graph.add_node(1);

    assert_eq!(graph.add_edge(1, 2), Err(GraphError::UnknownNode));
}

#[test]
fn test_get_neighbours() {
    let mut graph = Graph::new();

    graph.add_node(1);
    graph.add_node(2);
    graph.add_edge(1, 2).unwrap();
    graph.add_edge(1, 2).unwrap();

    let neighbours_1 = graph.get_neighbours(1).unwrap();
    let neighbours_2 = graph.get_neighbours(2).unwrap();

    assert_eq!(neighbours_1, &vec![2]);
    assert_eq!(neighbours_2, &vec![1]);
}

#[test]
fn test_get_neighbours_unknown_node() {
    let mut graph = Graph::new();

    graph.add_node(1);
    graph.add_node(2);
    graph.add_edge(1, 2).unwrap();

    assert_eq!(graph.get_neighbours(3), Err(GraphError::UnknownNode));
}

#[test]
fn test_contract_nodes() {
    let mut graph: Graph = Graph::new();

    graph.add_node(1);
    graph.add_node(2);
    graph.add_node(3);
    graph.add_node(4);

    graph.add_edge(1, 2).unwrap();
    graph.add_edge(2, 3).unwrap();
    graph.add_edge(3, 4).unwrap();

    assert_eq!(graph.get_all_nodes().len(), 4);

    let neighbours = graph.get_neighbours(2).unwrap();
    assert_eq!(neighbours, &vec![1, 3]);

    graph.contract_nodes(2, 3).unwrap();

    assert_eq!(graph.get_all_nodes().len(), 3);

    let neighbours = graph.get_neighbours(2).unwrap();
    assert_eq!(neighbours, &vec![1, 4]);
}

#[test]
fn test_contract_nodes_unknown_first_node() {
    let mut graph: Graph = Graph::new();

    graph.add_node(2);

    assert_eq!(graph.contract_nodes(1, 2), Err(GraphError::UnknownNode));
}

#[test]
fn test_contract_nodes_unknown_second_node() {
    let mut graph: Graph = Graph::new();

    graph.add_node(1);

    assert_eq!(graph.contract_nodes(1, 2), Err(GraphError::UnknownNode));
}

#[test]
fn test_contract_pair_identity() {
    let mut graph: Graph = Graph::new();

    graph.add_node(7);
    graph.add_node(9);
    graph.add_edge(7, 9).unwrap();

    graph.contract_nodes(7, 9).unwrap();

    assert_eq!(graph.get_all_nodes(), vec![7]);
    assert_eq!(graph.get_neighbours(7).unwrap().len(), 0);
}

#[test]
fn test_add_edge_self_loop_is_ignored() {
    let mut graph: Graph = Graph::new();

    graph.add_node(1);

    assert!(!graph.add_edge(1, 1).unwrap());
    assert_eq!(graph.get_neighbours(1).unwrap().len(), 0);
}

#[test]
fn test_symmetry_after_mutations() {
    let mut graph = Graph::from_edges(vec![(1, 2), (2, 3), (3, 4), (4, 1), (5, 2)]);
    graph.add_node(6);
    graph.add_edge(6, 3).unwrap();
    graph.contract_nodes(2, 3).unwrap();

    for a in graph.get_all_nodes() {
        for &b in graph.get_neighbours(a).unwrap() {
            assert!(graph.get_neighbours(b).unwrap().contains(&a));
        }
    }
}

#[test]
fn test_max_degree() {
    let graph = Graph::from_edges(vec![(1, 2), (1, 3), (1, 4), (2, 3)]);

    assert_eq!(graph.get_max_degree(), 3);
    assert_eq!(Graph::new().get_max_degree(), 0);
}

#[test]
fn test_from_gr_skips_unparseable_lines() {
    let gr = "c a comment line\n\
              p tww 5 4\n\
              1 2\n\
              nonsense\n\
              2 3 junk\n\
              99999999999 1\n\
              3 4";
    let graph = Graph::from_gr(gr);

    let mut nodes = graph.get_all_nodes();
    nodes.sort();
    assert_eq!(nodes, vec![1, 2, 3, 4]);
    assert_eq!(graph.get_neighbours(2).unwrap(), &vec![1, 3]);
    assert_eq!(graph.get_neighbours(4).unwrap(), &vec![3]);
}

#[test]
fn test_from_gr_accepts_plus_signs_and_blank_lines() {
    let gr = "\n+10 007\n\n";
    let graph = Graph::from_gr(gr);

    let mut nodes = graph.get_all_nodes();
    nodes.sort();
    assert_eq!(nodes, vec![7, 10]);
    assert_eq!(graph.get_neighbours(10).unwrap(), &vec![7]);
}

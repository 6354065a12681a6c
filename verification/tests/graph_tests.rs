use deepwalk::edge_list::ParseError;
use deepwalk::graph::Graph;
use deepwalk::graph::GraphNode;
use deepwalk::graph::LoadError;

fn triangle() -> Graph {
    let edge_list = vec![vec![111, 222], vec![111, 333], vec![222, 333]];
    let mut g = Graph::new();
    g.build(edge_list);
    g
}

fn neighbors_of(g: &Graph, id: i32) -> Vec<i32> {
    g.get_node(&id).unwrap().neighbors().clone()
}

#[test]
fn test_new_graph() {
    let edge_list = vec![vec![111, 222], vec![111, 333], vec![222, 333]];
    let mut g = Graph::new();
    g.build(edge_list);
    let mut mock_333 = GraphNode::new(333);
    mock_333.add_edge(111);
    mock_333.add_edge(222);
    assert_eq!(mock_333.get_weight(), 2);
    assert_eq!(g.get_node(&333).unwrap(), &mock_333);
    assert_eq!(g.get_node_idx(&111).unwrap(), &0);
}

#[test]
fn test_random_walk() {
    let edge_list = vec![vec![111, 222], vec![111, 333], vec![222, 333]];
    let mut g = Graph::new();
    g.build(edge_list);
    let random_walk = g.random_walk(&111, 5);
    assert_eq!(random_walk.len(), 5);
}

#[test]
fn new_graph_is_empty() {
    let g = Graph::new();
    assert_eq!(g.num_nodes(), 0);
    assert!(g.get_node(&1).is_none());
    assert!(g.get_node_idx(&1).is_none());
    assert!(g.get_node_iter().is_empty());
}

#[test]
fn new_node_has_no_neighbors() {
    let node = GraphNode::new(7);
    assert_eq!(node.get_id(), 7);
    assert_eq!(node.get_weight(), 0);
    assert_eq!(node.random_step(), None);
}

#[test]
fn random_step_gives_a_neighbor() {
    let mut node = GraphNode::new(7);
    node.add_edge(8);
    node.add_edge(9);
    node.add_edge(9);
    assert_eq!(node.get_weight(), 3);
    for _ in 0..50 {
        let step = *node.random_step().unwrap();
        assert!(step == 8 || step == 9);
    }
}

#[test]
fn random_step_reaches_every_neighbor() {
    let mut node = GraphNode::new(0);
    for id in 1..=4 {
        node.add_edge(id);
    }
    let mut seen = [false; 5];
    for _ in 0..2000 {
        seen[*node.random_step().unwrap() as usize] = true;
    }
    assert_eq!(seen, [false, true, true, true, true]);
}

#[test]
fn dense_indices_follow_first_seen_order() {
    let mut g = Graph::new();
    g.build(vec![vec![1, 2], vec![2, 3]]);
    assert_eq!(g.num_nodes(), 3);
    assert_eq!(g.get_node_idx(&1), Some(&0));
    assert_eq!(g.get_node_idx(&2), Some(&1));
    assert_eq!(g.get_node_idx(&3), Some(&2));
    assert_eq!(g.get_node_idx(&4), None);
    let ids: Vec<i32> = g.get_node_iter().iter().map(|n| n.get_id()).collect();
    assert_eq!(ids, vec![1, 2, 3]);
}

#[test]
fn second_end_seen_first_gets_the_later_index() {
    let mut g = Graph::new();
    g.build(vec![vec![30, 10], vec![20, 30]]);
    assert_eq!(g.get_node_idx(&30), Some(&0));
    assert_eq!(g.get_node_idx(&10), Some(&1));
    assert_eq!(g.get_node_idx(&20), Some(&2));
}

#[test]
fn every_edge_is_held_from_both_ends() {
    let edges = vec![vec![1, 2], vec![2, 3], vec![3, 1], vec![4, 1], vec![-5, 4]];
    let mut g = Graph::new();
    g.build(edges.clone());
    for edge in edges {
        assert!(neighbors_of(&g, edge[0]).contains(&edge[1]));
        assert!(neighbors_of(&g, edge[1]).contains(&edge[0]));
    }
    assert_eq!(g.get_node(&1).unwrap().get_weight(), 3);
    assert_eq!(g.get_node(&2).unwrap().get_weight(), 2);
    assert_eq!(g.get_node(&3).unwrap().get_weight(), 2);
    assert_eq!(g.get_node(&4).unwrap().get_weight(), 2);
    assert_eq!(g.get_node(&-5).unwrap().get_weight(), 1);
}

#[test]
fn neighbors_keep_the_order_of_the_edges() {
    let mut g = Graph::new();
    g.build(vec![vec![1, 3], vec![2, 1], vec![1, 2]]);
    let mut expected = GraphNode::new(1);
    expected.add_edge(3);
    expected.add_edge(2);
    expected.add_edge(2);
    assert_eq!(g.get_node(&1).unwrap(), &expected);
    assert_eq!(neighbors_of(&g, 1), vec![3, 2, 2]);
    assert_eq!(neighbors_of(&g, 2), vec![1, 1]);
    assert_eq!(neighbors_of(&g, 3), vec![1]);
}

#[test]
fn loops_and_repeated_edges_count() {
    let mut g = Graph::new();
    g.build(vec![vec![5, 5], vec![5, 6], vec![5, 6]]);
    assert_eq!(g.num_nodes(), 2);
    let mut five = GraphNode::new(5);
    five.add_edge(5);
    five.add_edge(5);
    five.add_edge(6);
    five.add_edge(6);
    assert_eq!(g.get_node(&5).unwrap(), &five);
    assert_eq!(g.get_node(&6).unwrap().get_weight(), 2);
}

#[test]
fn build_adds_to_what_is_there() {
    let mut g = Graph::new();
    g.build(vec![vec![1, 2]]);
    g.build(vec![vec![3, 1]]);
    assert_eq!(g.get_node_idx(&3), Some(&2));
    assert_eq!(g.get_node(&1).unwrap().get_weight(), 2);
    g.build(vec![]);
    assert_eq!(g.num_nodes(), 3);
}

#[test]
fn walk_goes_from_neighbor_to_neighbor() {
    let mut g = Graph::new();
    g.build(vec![vec![1, 2], vec![2, 3], vec![3, 4], vec![4, 5]]);
    for _ in 0..20 {
        let walk = g.random_walk(&3, 30);
        assert_eq!(walk.len(), 30);
        let mut at = 3;
        for step in walk {
            assert!(g.get_node(&step).is_some());
            assert_eq!((step - at).abs(), 1);
            at = step;
        }
    }
}

#[test]
fn walk_of_no_steps_is_empty() {
    let g = triangle();
    assert_eq!(g.random_walk(&222, 0), Vec::<i32>::new());
}

#[test]
fn walk_on_one_edge_alternates() {
    let mut g = Graph::new();
    g.build(vec![vec![7, 9]]);
    assert_eq!(g.random_walk(&7, 4), vec![9, 7, 9, 7]);
}

#[test]
fn text_of_edges_is_built() {
    let mut g = Graph::new();
    assert_eq!(g.build_graph_from_file(b"1 2\n2\t3\r\n  +3   -4  \n"), Ok(()));
    assert_eq!(g.num_nodes(), 4);
    assert_eq!(g.get_node_idx(&-4), Some(&3));
    assert_eq!(g.get_node(&2).unwrap().get_weight(), 2);
    assert_eq!(g.get_node(&3).unwrap().get_weight(), 2);
}

#[test]
fn text_with_a_bad_line_adds_nothing() {
    let mut g = Graph::new();
    assert_eq!(
        g.build_graph_from_file(b"1 2\n3 x\n"),
        Err(LoadError::Malformed(ParseError::NotAnInteger { line: 2 }))
    );
    assert_eq!(g.num_nodes(), 0);
    assert_eq!(
        g.build_graph_from_file(b"1 2\n3 4\n5\n"),
        Err(LoadError::Malformed(ParseError::WrongFieldCount { line: 3 }))
    );
    assert_eq!(g.num_nodes(), 0);
}

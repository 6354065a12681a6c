use deepwalk::graph::GraphNode;
use deepwalk::huffman_tree::HuffmanTree;
use deepwalk::huffman_tree::TreeNode;

fn with_signs_as_floats(path: Vec<(usize, i8)>) -> Vec<(usize, f64)> {
    path.into_iter().map(|(index, sign)| (index, sign as f64)).collect()
}

fn node_of_degree(id: i32, degree: i32) -> GraphNode {
    let mut node = GraphNode::new(id);
    for _ in 0..degree {
        node.add_edge(0);
    }
    node
}

fn tree_of_degrees(degrees: &[(i32, i32)]) -> HuffmanTree {
    let nodes: Vec<GraphNode> = degrees.iter().map(|(id, d)| node_of_degree(*id, *d)).collect();
    HuffmanTree::new(nodes.iter().collect())
}

#[test]
fn test_new_tree() {
    let mut g1 = GraphNode::new(111);
    let mut g2 = GraphNode::new(222);
    let g3 = GraphNode::new(333);
    g1.add_edge(222);
    g2.add_edge(333);
    g1.add_edge(333);

    let test_graph = vec![&g3, &g2, &g1];
    let ht = HuffmanTree::new(test_graph);
    assert_eq!(ht.num_nodes(), 5);
}

#[test]
fn test_get_path_and_turns() {
    let mut g1 = GraphNode::new(111);
    let mut g2 = GraphNode::new(222);
    let g3 = GraphNode::new(333);
    g1.add_edge(222);
    g2.add_edge(333);
    g1.add_edge(333);

    let test_graph = vec![&g3, &g2, &g1];
    let ht = HuffmanTree::new(test_graph);
    assert_eq!(
        with_signs_as_floats(ht.get_indices_and_turns(&333)),
        vec![(0, 1.0), (1, 1.0)]
    );
}

#[test]
fn paths_of_the_other_leaves() {
    let ht = tree_of_degrees(&[(333, 0), (222, 1), (111, 2)]);
    assert_eq!(ht.get_indices_and_turns(&222), vec![(0, -1), (1, 1)]);
    assert_eq!(ht.get_indices_and_turns(&111), vec![(1, -1)]);
    assert_eq!(ht.get_encoding(&333), vec![1, 1]);
    assert_eq!(ht.get_encoding(&222), vec![-1, 1]);
    assert_eq!(ht.get_encoding(&111), vec![-1]);
}

#[test]
fn two_leaves_make_three_nodes() {
    let ht = tree_of_degrees(&[(1, 1), (2, 1)]);
    assert_eq!(ht.num_nodes(), 3);
    assert_eq!(ht.get_indices_and_turns(&1), vec![(0, -1)]);
    assert_eq!(ht.get_indices_and_turns(&2), vec![(0, 1)]);
}

#[test]
fn path_graph_of_three_nodes() {
    let ht = tree_of_degrees(&[(1, 1), (2, 2), (3, 1)]);
    assert_eq!(ht.num_nodes(), 5);
    assert_eq!(ht.get_indices_and_turns(&3).len(), 2);
    assert_eq!(ht.get_indices_and_turns(&3), vec![(0, 1), (1, -1)]);
    assert_eq!(ht.get_indices_and_turns(&1), vec![(0, -1), (1, -1)]);
    assert_eq!(ht.get_indices_and_turns(&2), vec![(1, 1)]);
}

#[test]
fn leaves_are_merged_lightest_first_whatever_their_order() {
    let ht = tree_of_degrees(&[(10, 4), (20, 1), (30, 2), (40, 1)]);
    assert_eq!(ht.num_nodes(), 7);
    assert_eq!(ht.get_indices_and_turns(&10), vec![(2, 1)]);
    assert_eq!(ht.get_indices_and_turns(&20), vec![(0, -1), (1, -1), (2, -1)]);
    assert_eq!(ht.get_indices_and_turns(&30), vec![(1, 1), (2, -1)]);
    assert_eq!(ht.get_indices_and_turns(&40), vec![(0, 1), (1, -1), (2, -1)]);
}

#[test]
fn a_leaf_goes_before_an_inner_node_of_its_weight() {
    let ht = tree_of_degrees(&[(1, 3), (2, 3), (3, 3), (4, 3), (5, 3)]);
    assert_eq!(ht.num_nodes(), 9);
    assert_eq!(ht.get_indices_and_turns(&1), vec![(2, 1), (3, -1)]);
    assert_eq!(ht.get_indices_and_turns(&2), vec![(1, -1), (3, 1)]);
    assert_eq!(ht.get_indices_and_turns(&3), vec![(1, 1), (3, 1)]);
    assert_eq!(ht.get_indices_and_turns(&4), vec![(0, -1), (2, -1), (3, -1)]);
    assert_eq!(ht.get_indices_and_turns(&5), vec![(0, 1), (2, -1), (3, -1)]);
}

#[test]
fn tree_has_one_inner_node_less_than_leaves() {
    for n in 2..40usize {
        let degrees: Vec<(i32, i32)> = (0..n).map(|i| (i as i32, ((i * 7) % 5) as i32)).collect();
        let ht = tree_of_degrees(&degrees);
        assert_eq!(ht.num_nodes(), 2 * n - 1);
        for (id, _) in degrees {
            for (index, sign) in ht.get_indices_and_turns(&id) {
                assert!(index < n - 1);
                assert!(sign == 1 || sign == -1);
            }
        }
    }
}

#[test]
fn every_path_ends_at_the_root() {
    let degrees: Vec<(i32, i32)> = (0..17).map(|i| (i, (i * i) % 11)).collect();
    let ht = tree_of_degrees(&degrees);
    for (id, _) in degrees {
        let path = ht.get_indices_and_turns(&id);
        assert_eq!(path.last().unwrap().0, 15);
    }
}

#[test]
fn paths_of_two_leaves_part_at_one_inner_node() {
    let degrees: Vec<(i32, i32)> = (0..23).map(|i| (i, (i * 5) % 7)).collect();
    let ht = tree_of_degrees(&degrees);
    for (a, _) in degrees.iter() {
        for (b, _) in degrees.iter() {
            if a == b {
                continue;
            }
            let mut pa = ht.get_indices_and_turns(a);
            let mut pb = ht.get_indices_and_turns(b);
            pa.reverse();
            pb.reverse();
            let shared = pa.iter().zip(pb.iter()).take_while(|(x, y)| x == y).count();
            assert!(shared < pa.len() && shared < pb.len());
            assert_eq!(pa[shared].0, pb[shared].0);
            assert_ne!(pa[shared].1, pb[shared].1);
            for k in shared + 1..pa.len().min(pb.len()) {
                assert_ne!(pa[k], pb[k]);
            }
        }
    }
}

#[test]
fn heavier_leaves_are_not_deeper() {
    let degrees = [(1, 1), (2, 2), (3, 4), (4, 8), (5, 16), (6, 32)];
    let ht = tree_of_degrees(&degrees);
    let depths: Vec<usize> = degrees.iter().map(|(id, _)| ht.get_encoding(id).len()).collect();
    assert_eq!(depths, vec![5, 5, 4, 3, 2, 1]);
}

#[test]
fn encoding_is_the_signs_of_the_path() {
    let degrees: Vec<(i32, i32)> = (0..9).map(|i| (i, i % 4)).collect();
    let ht = tree_of_degrees(&degrees);
    for (id, _) in degrees {
        let signs: Vec<i8> = ht.get_indices_and_turns(&id).iter().map(|s| s.1).collect();
        assert_eq!(ht.get_encoding(&id), signs);
    }
}

#[test]
fn tree_node_setters() {
    let mut node = TreeNode::new(3);
    node.set_leaf_id(9);
    node.set_children(0, 1);
    node.set_parent(4);
    node.set_tree_index(2);
    let shown = format!("{:?}", node);
    assert!(shown.contains("weight: 3"));
    assert!(shown.contains("leaf_id: Some(9)"));
    assert!(shown.contains("left: Some(0)"));
    assert!(shown.contains("right: Some(1)"));
    assert!(shown.contains("parent: Some(4)"));
    assert!(shown.contains("tree_index: Some(2)"));
    assert!(shown.contains("is_right_child: None"));
}

#[test]
fn tree_nodes_compare_by_weight() {
    let mut light = TreeNode::new(1);
    light.set_leaf_id(5);
    let heavy = TreeNode::new(2);
    let mut other = TreeNode::new(1);
    other.set_tree_index(3);
    assert!(light == other);
    assert!(light != heavy);
    assert!(light < heavy);
    assert!(heavy > other);
    assert!(light <= other && light >= other);
    assert_eq!(light.partial_cmp(&heavy), Some(std::cmp::Ordering::Less));
    assert_eq!(heavy.partial_cmp(&light), Some(std::cmp::Ordering::Greater));
    assert_eq!(light.partial_cmp(&other), Some(std::cmp::Ordering::Equal));
}

#[test]
fn paths_depend_on_the_tree_alone() {
    let degrees: Vec<(i32, i32)> = (0..12).map(|i| (i, (i * 3) % 5)).collect();
    let first = tree_of_degrees(&degrees);
    let second = tree_of_degrees(&degrees);
    for (id, _) in degrees {
        let path = first.get_indices_and_turns(&id);
        assert_eq!(first.get_indices_and_turns(&id), path);
        assert_eq!(second.get_indices_and_turns(&id), path);
    }
}

#[test]
fn a_step_names_the_inner_node_above_it() {
    // In the tree of 4, 1, 2, 1 the leaves 20 and 40 are merged first, then
    // their parent with 30, then that parent with 10.
    let ht = tree_of_degrees(&[(10, 4), (20, 1), (30, 2), (40, 1)]);
    let deep = ht.get_indices_and_turns(&20);
    let sibling = ht.get_indices_and_turns(&40);
    let above = ht.get_indices_and_turns(&30);
    assert_eq!(deep[0].0, sibling[0].0);
    assert_ne!(deep[0].1, sibling[0].1);
    assert_eq!(deep[1..], sibling[1..]);
    assert_eq!(deep[1].0, above[0].0);
    assert_ne!(deep[1].1, above[0].1);
    assert_eq!(deep[2..], above[1..]);
}

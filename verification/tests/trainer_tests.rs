use deepwalk::graph::Graph;
use deepwalk::trainer::context_window;
use deepwalk::trainer::node_ids;
use deepwalk::trainer::node_updates;
use deepwalk::trainer::pool_size;
use deepwalk::trainer::shuffle_nodes;
use deepwalk::trainer::tree_of;
use deepwalk::trainer::walk_updates;
use deepwalk::trainer::window_pairs;
use deepwalk::trainer::TrainerState;

fn path_graph() -> Graph {
    let mut g = Graph::new();
    g.build(vec![vec![1, 2], vec![2, 3]]);
    g
}

#[test]
fn window_reaches_back_and_on() {
    assert_eq!(context_window(5, 2, 10), (3, 7));
    assert_eq!(context_window(0, 2, 10), (0, 2));
    assert_eq!(context_window(1, 2, 10), (0, 3));
    assert_eq!(context_window(9, 2, 10), (7, 10));
    assert_eq!(context_window(8, 2, 10), (6, 10));
    assert_eq!(context_window(3, 0, 10), (3, 3));
    assert_eq!(context_window(3, usize::MAX, 10), (0, 10));
}

#[test]
fn pairs_of_a_window_of_one() {
    assert_eq!(window_pairs(4, 1), vec![(1, 0), (2, 1), (3, 2)]);
}

#[test]
fn pairs_of_a_window_of_two() {
    assert_eq!(
        window_pairs(3, 2),
        vec![(0, 1), (1, 0), (1, 2), (2, 0), (2, 1)]
    );
    assert_eq!(
        window_pairs(5, 2),
        vec![
            (0, 1),
            (1, 0),
            (1, 2),
            (2, 0),
            (2, 1),
            (2, 3),
            (3, 1),
            (3, 2),
            (3, 4),
            (4, 2),
            (4, 3)
        ]
    );
}

#[test]
fn no_pairs_without_a_window_or_a_walk() {
    assert_eq!(window_pairs(5, 0), vec![]);
    assert_eq!(window_pairs(0, 3), vec![]);
    assert_eq!(window_pairs(1, 3), vec![]);
}

#[test]
fn a_wide_window_pairs_every_two_positions() {
    let pairs = window_pairs(4, 100);
    assert_eq!(pairs.len(), 12);
    for v in 0..4 {
        for u in 0..4 {
            assert_eq!(pairs.contains(&(v, u)), u != v);
        }
    }
}

#[test]
fn pool_is_no_larger_than_the_work() {
    assert_eq!(pool_size(4, 10), 4);
    assert_eq!(pool_size(4, 3), 3);
    assert_eq!(pool_size(4, 4), 4);
    assert_eq!(pool_size(0, 4), 0);
    assert_eq!(pool_size(4, 0), 0);
}

#[test]
fn node_ids_in_dense_order() {
    let mut g = Graph::new();
    g.build(vec![vec![30, 10], vec![20, 30]]);
    assert_eq!(node_ids(&g), vec![30, 10, 20]);
    assert_eq!(node_ids(&Graph::new()), Vec::<i32>::new());
}

#[test]
fn shuffle_keeps_every_id() {
    let ids: Vec<i32> = (0..200).map(|i| i % 50).collect();
    let mut shuffled = ids.clone();
    shuffle_nodes(&mut shuffled);
    assert_eq!(shuffled.len(), 200);
    let mut sorted = shuffled.clone();
    sorted.sort();
    let mut expected = ids.clone();
    expected.sort();
    assert_eq!(sorted, expected);
}

#[test]
fn shuffle_changes_the_order() {
    let ids: Vec<i32> = (0..200).collect();
    let mut shuffled = ids.clone();
    shuffle_nodes(&mut shuffled);
    assert_ne!(shuffled, ids);
}

#[test]
fn shuffle_of_nothing_and_of_one() {
    let mut none: Vec<i32> = vec![];
    shuffle_nodes(&mut none);
    assert_eq!(none, Vec::<i32>::new());
    let mut one = vec![5];
    shuffle_nodes(&mut one);
    assert_eq!(one, vec![5]);
}

#[test]
fn a_run_goes_through_its_epochs() {
    let mut state = TrainerState::new();
    assert_eq!(state, TrainerState::Initialized);
    let mut seen = Vec::new();
    for _ in 0..5 {
        state = state.next(3);
        seen.push(state);
    }
    assert_eq!(
        seen,
        vec![
            TrainerState::Epoch(0),
            TrainerState::Epoch(1),
            TrainerState::Epoch(2),
            TrainerState::Finished,
            TrainerState::Finished
        ]
    );
}

#[test]
fn a_run_of_no_epochs_is_finished_at_once() {
    assert_eq!(TrainerState::new().next(0), TrainerState::Finished);
    assert_eq!(TrainerState::Epoch(usize::MAX).next(usize::MAX), TrainerState::Finished);
    assert_eq!(TrainerState::Epoch(7).next(3), TrainerState::Finished);
}

#[test]
fn tree_of_a_path_graph() {
    let g = path_graph();
    let tree = tree_of(&g).unwrap();
    assert_eq!(tree.num_nodes(), 5);
    assert_eq!(tree.get_indices_and_turns(&3).len(), 2);
    assert_eq!(tree.get_indices_and_turns(&3), vec![(0, 1), (1, -1)]);
}

#[test]
fn no_tree_of_fewer_than_two_nodes() {
    assert!(tree_of(&Graph::new()).is_none());
    let mut g = Graph::new();
    g.build(vec![vec![5, 5]]);
    assert_eq!(g.num_nodes(), 1);
    assert!(tree_of(&g).is_none());
}

#[test]
fn updates_of_a_given_walk() {
    let g = path_graph();
    let tree = tree_of(&g).unwrap();
    let updates = walk_updates(&g, &tree, &vec![2, 1, 2], 1);
    assert_eq!(updates.len(), 2);
    assert_eq!(updates[0].target, 0);
    assert_eq!(updates[0].path, vec![(1, 1)]);
    assert_eq!(updates[1].target, 1);
    assert_eq!(updates[1].path, vec![(0, -1), (1, -1)]);
}

#[test]
fn updates_of_an_empty_walk() {
    let g = path_graph();
    let tree = tree_of(&g).unwrap();
    assert!(walk_updates(&g, &tree, &vec![], 3).is_empty());
    assert!(walk_updates(&g, &tree, &vec![2], 3).is_empty());
}

#[test]
fn updates_of_a_random_walk_fit_the_model() {
    let g = path_graph();
    let tree = tree_of(&g).unwrap();
    for _ in 0..20 {
        let updates = node_updates(&g, &tree, &1, 2, 1);
        // A walk of two steps from 1 is 2, then 1 or 3: the pair is
        // target position 1, context position 0.
        assert_eq!(updates.len(), 1);
        assert!(updates[0].target == 0 || updates[0].target == 2);
        assert_eq!(updates[0].path, vec![(1, 1)]);
    }
    for update in node_updates(&g, &tree, &2, 10, 3) {
        assert!(update.target < 3);
        for (index, sign) in update.path {
            assert!(index < 2);
            assert!(sign == 1 || sign == -1);
        }
    }
}

use std::cmp::Ordering;
use tok::branch::BranchSet;
use tok::graph::{add_predecessor, add_successor, Graph};
use tok::node::{compare_dag_cost, Deadline, Node};
use tok::order::{compute_ordering, goes_first, BranchOrder};
use tok::reducer::{remove_all_indirect_predecessors, remove_indirect_predecessors};
use tok::sequencer::topological_sort;

fn leaf(id: &str, cost: usize) -> Node<u8> {
    let mut node = Node::new(&id.to_string(), 0u8);
    node.cost = cost;
    node.dag_cost = cost;
    node
}

fn due(id: &str, cost: usize, year: usize, month: usize, day: usize) -> Node<u8> {
    let mut node = leaf(id, cost);
    node.deadline = Some(Deadline { year, month, day });
    node
}

fn graph_of(nodes: Vec<Node<u8>>) -> Graph<u8> {
    let mut graph = Graph::new(leaf("//", 1));
    for node in nodes {
        graph.insert(node);
    }
    graph
}

#[test]
fn new_node_is_linked_to_nothing() {
    let node = Node::new(&"a".to_string(), 7u8);
    assert_eq!(node.path, "a");
    assert_eq!(*node.data(), 7);
    assert_eq!(node.cost, 1);
    assert_eq!(node.dag_cost(), 1);
    assert_eq!(node.num_predecessors(), 0);
    assert_eq!(node.num_successors(), 0);
    assert_eq!(node.times_visited, 0);
    assert!(!node.sorted);
    assert!(node.is_discovered());
    assert!(!node.has_single_successor());
    assert!(!node.has_multiple_successors());
}

#[test]
fn node_lists_its_predecessors() {
    let mut node = leaf("a", 1);
    node.push_predecessor(4);
    node.push_predecessor(2);
    assert_eq!(node.predecessors(), vec![4, 2]);
    assert_eq!(node.num_predecessors(), 2);
    assert!(node.has_predecessor(2));
    assert!(!node.has_predecessor(3));
    assert_eq!(node.get_predecessor_index(2), Ok(1));
    assert_eq!(node.get_predecessor_index(4), Ok(0));
    assert_eq!(node.get_predecessor_index(9), Err(()));
}

#[test]
fn node_counters_and_marks() {
    let mut node = leaf("a", 3);
    node.incr_num_successors();
    assert!(node.has_single_successor());
    node.incr_num_successors();
    assert!(node.has_multiple_successors());
    assert!(!node.is_discovered());
    node.incr_times_visited();
    node.incr_times_visited();
    assert!(node.is_discovered());
    node.decr_num_successors();
    assert_eq!(node.num_successors(), 1);
    node.mark_discovered();
    assert!(node.sorted);
    node.set_dag_cost(9);
    assert_eq!(node.dag_cost(), 9);
    node.set_data(5);
    *node.data_mut() += 1;
    assert_eq!(*node.data(), 6);
    node.push_predecessor(3);
    node.reset();
    assert_eq!(node.num_successors(), 0);
    assert_eq!(node.num_predecessors(), 0);
    assert_eq!(node.times_visited, 0);
    assert_eq!(node.dag_cost(), 0);
    assert!(!node.sorted);
    assert_eq!(node.cost, 3);
    assert_eq!(*node.data(), 6);
}

#[test]
fn lists_of_a_node_are_put_in_order() {
    let mut node = leaf("a", 1);
    node.after = vec!["c".to_string(), "a".to_string(), "c".to_string(), "b".to_string()];
    node.before = vec!["z".to_string(), "z".to_string()];
    node.dedup_after();
    node.dedup_before();
    assert_eq!(node.after, vec!["a".to_string(), "b".to_string(), "c".to_string()]);
    assert_eq!(node.before, vec!["z".to_string()]);
}

#[test]
fn registry_finds_nodes_by_identity() {
    let graph = graph_of(vec![leaf("a", 1), leaf("b", 1)]);
    assert_eq!(graph.len(), 3);
    assert_eq!(graph.root(), 0);
    assert_eq!(graph.find(&"//".to_string()), Some(0));
    assert_eq!(graph.find(&"b".to_string()), Some(2));
    assert_eq!(graph.find(&"c".to_string()), None);
    assert_eq!(graph.node(1).path, "a");
}

#[test]
fn taking_in_a_node_unlinks_it() {
    let mut stale = leaf("a", 4);
    stale.push_predecessor(17);
    stale.incr_num_successors();
    let graph = graph_of(vec![stale]);
    assert_eq!(graph.node(1).num_predecessors(), 0);
    assert_eq!(graph.node(1).num_successors(), 0);
    assert_eq!(graph.node(1).cost, 4);
}

#[test]
fn edges_are_counted_at_the_predecessor() {
    let mut graph = graph_of(vec![leaf("a", 1), leaf("b", 1), leaf("c", 1)]);
    add_predecessor(&mut graph, 1, 3);
    add_predecessor(&mut graph, 2, 3);
    add_predecessor(&mut graph, 2, 3);
    assert_eq!(graph.node(3).num_successors(), 2);
    add_successor(&mut graph, 0, 1, 2);
    assert_eq!(graph.node(0).predecessors(), vec![2]);
    // In the order of paths, whatever the order of linking.
    assert_eq!(graph.node(2).predecessors(), vec![1, 3]);
    assert_eq!(graph.node(1).num_successors(), 1);
    assert_eq!(graph.node(2).num_successors(), 1);
    graph.remove_predecessor_by_index(2, 1);
    assert_eq!(graph.node(2).predecessors(), vec![1]);
    assert_eq!(graph.node(3).num_successors(), 1);
    // An index past the end changes nothing.
    graph.remove_predecessor_by_index(2, 1);
    graph.remove_predecessor_by_index(2, 99);
    assert_eq!(graph.node(2).predecessors(), vec![1]);
    assert_eq!(graph.node(1).num_successors(), 1);
    graph.reset();
    for i in 0..graph.len() {
        assert_eq!(graph.node(i).num_predecessors(), 0);
        assert_eq!(graph.node(i).num_successors(), 0);
    }
    assert_eq!(graph.node(1).path, "a");
}

#[test]
fn implied_edges_are_taken_out() {
    // n -> a, b, c; a -> b; b -> c.
    let mut graph = graph_of(vec![leaf("n", 1), leaf("a", 1), leaf("b", 1), leaf("c", 1)]);
    add_predecessor(&mut graph, 1, 2);
    add_predecessor(&mut graph, 1, 3);
    add_predecessor(&mut graph, 1, 4);
    add_predecessor(&mut graph, 2, 3);
    add_predecessor(&mut graph, 3, 4);
    remove_indirect_predecessors(&mut graph, 1);
    assert_eq!(graph.node(1).predecessors(), vec![2]);
    assert_eq!(graph.node(3).num_successors(), 1);
    assert_eq!(graph.node(4).num_successors(), 1);
    assert_eq!(graph.node(2).predecessors(), vec![3]);
}

#[test]
fn first_edge_stays_when_all_are_implied() {
    // n -> x, y; x -> y; y -> x.
    let mut graph = graph_of(vec![leaf("n", 1), leaf("x", 1), leaf("y", 1)]);
    add_predecessor(&mut graph, 1, 2);
    add_predecessor(&mut graph, 1, 3);
    add_predecessor(&mut graph, 2, 3);
    add_predecessor(&mut graph, 3, 2);
    remove_indirect_predecessors(&mut graph, 1);
    assert_eq!(graph.node(1).predecessors(), vec![2]);
    assert_eq!(graph.node(2).num_successors(), 2);
    assert_eq!(graph.node(3).num_successors(), 1);
    // A node without predecessors stays without.
    remove_indirect_predecessors(&mut graph, 0);
    assert_eq!(graph.node(0).num_predecessors(), 0);
}

#[test]
fn reducing_everything_leaves_no_shortcut() {
    let mut graph = graph_of(vec![leaf("a", 1), leaf("b", 1), leaf("c", 1), leaf("d", 1)]);
    for (from, to) in [(0, 1), (0, 2), (0, 3), (0, 4), (1, 2), (1, 3), (2, 3), (3, 4), (1, 4)] {
        add_predecessor(&mut graph, from, to);
    }
    remove_all_indirect_predecessors(&mut graph);
    for v in 0..graph.len() {
        let preds = graph.node(v).predecessors();
        for &p in preds.iter() {
            for &q in preds.iter() {
                assert!(!graph.node(p).has_predecessor(q));
            }
        }
    }
    assert_eq!(graph.node(0).predecessors(), vec![1]);
    assert_eq!(graph.node(1).predecessors(), vec![2]);
    assert_eq!(graph.node(4).num_successors(), 1);
}

#[test]
fn costs_add_up_below_a_node() {
    // root -> a, b; a -> c; b -> c.
    let mut graph = graph_of(vec![leaf("a", 2), leaf("b", 5), leaf("c", 3)]);
    add_predecessor(&mut graph, 0, 1);
    add_predecessor(&mut graph, 0, 2);
    add_predecessor(&mut graph, 1, 3);
    add_predecessor(&mut graph, 2, 3);
    let total = graph.compute_dag_cost(0);
    assert_eq!(total, 14);
    assert_eq!(graph.node(3).dag_cost(), 3);
    assert_eq!(graph.node(1).dag_cost(), 5);
    assert_eq!(graph.node(2).dag_cost(), 8);
    assert_eq!(graph.node(0).dag_cost(), 14);
    // Evaluating again gives the same.
    assert_eq!(graph.compute_dag_cost(0), 14);
    // A node that is not below the start is left alone.
    let mut other = graph_of(vec![leaf("a", 2), leaf("b", 5)]);
    other.compute_dag_cost(1);
    assert_eq!(other.node(2).dag_cost(), 5);
    assert_eq!(other.node(0).dag_cost(), 1);
}

#[test]
fn costs_skip_edges_that_close_a_cycle() {
    // root -> a; a -> b; b -> a.
    let mut graph = graph_of(vec![leaf("a", 2), leaf("b", 5)]);
    add_predecessor(&mut graph, 0, 1);
    add_predecessor(&mut graph, 1, 2);
    add_predecessor(&mut graph, 2, 1);
    assert_eq!(graph.compute_dag_cost(0), 8);
    assert_eq!(graph.node(2).dag_cost(), 5);
    assert_eq!(graph.node(1).dag_cost(), 7);
    for v in 0..graph.len() {
        assert!(graph.node(v).dag_cost() >= graph.node(v).cost);
    }
}

#[test]
fn costs_stay_at_the_largest_word() {
    let mut graph = graph_of(vec![leaf("a", usize::MAX), leaf("b", 5)]);
    add_predecessor(&mut graph, 0, 1);
    add_predecessor(&mut graph, 0, 2);
    assert_eq!(graph.compute_dag_cost(0), usize::MAX);
}

#[test]
fn branches_compare_by_cost() {
    let cheap = leaf("a", 1);
    let dear = leaf("b", 9);
    assert_eq!(compare_dag_cost(false, &dear, &cheap), Ordering::Less);
    assert_eq!(compare_dag_cost(false, &cheap, &dear), Ordering::Greater);
    assert_eq!(compare_dag_cost(true, &cheap, &dear), Ordering::Less);
    assert_eq!(compare_dag_cost(true, &dear, &cheap), Ordering::Greater);
    assert_eq!(compare_dag_cost(true, &dear, &dear), Ordering::Equal);
    assert_eq!(compare_dag_cost(false, &dear, &dear), Ordering::Equal);
}

#[test]
fn branches_compare_by_deadline_first() {
    let plain = leaf("p", 100);
    let early = due("e", 1, 2024, 1, 1);
    let later = due("l", 50, 2024, 6, 1);
    let same_month = due("m", 50, 2024, 6, 2);
    let next_year = due("y", 50, 2025, 1, 1);
    assert_eq!(compute_ordering(false, &early, &plain), Ordering::Less);
    assert_eq!(compute_ordering(false, &plain, &early), Ordering::Greater);
    assert_eq!(compute_ordering(false, &early, &later), Ordering::Less);
    assert_eq!(compute_ordering(true, &later, &early), Ordering::Greater);
    assert_eq!(compute_ordering(false, &later, &same_month), Ordering::Less);
    assert_eq!(compute_ordering(false, &next_year, &same_month), Ordering::Greater);
    assert_eq!(compute_ordering(false, &later, &later), Ordering::Equal);
    assert_eq!(compute_ordering(false, &plain, &leaf("q", 1)), Ordering::Less);
    assert_eq!(compute_ordering(true, &plain, &leaf("q", 1)), Ordering::Greater);
    assert!(goes_first(BranchOrder::Deadline, false, &early, &plain));
    assert!(!goes_first(BranchOrder::Cost, false, &early, &plain));
    assert!(goes_first(BranchOrder::Cost, true, &early, &plain));
}

#[test]
fn branches_are_ordered_in_place() {
    let mut graph = graph_of(vec![
        leaf("a", 3),
        leaf("b", 7),
        due("c", 1, 2025, 1, 1),
        leaf("d", 7),
        due("e", 1, 2024, 1, 1),
        leaf("f", 3),
    ]);
    for p in 1..7 {
        add_predecessor(&mut graph, 0, p);
    }
    graph.sort_predecessor_branches(0, false, BranchOrder::Cost);
    assert_eq!(graph.node(0).predecessors(), vec![2, 4, 1, 6, 3, 5]);
    graph.sort_predecessor_branches(0, true, BranchOrder::Cost);
    assert_eq!(graph.node(0).predecessors(), vec![3, 5, 1, 6, 2, 4]);
    graph.sort_predecessor_branches(0, false, BranchOrder::Deadline);
    assert_eq!(graph.node(0).predecessors(), vec![5, 3, 2, 4, 1, 6]);
    graph.sort_all_branches(true, BranchOrder::Deadline);
    assert_eq!(graph.node(0).predecessors(), vec![5, 3, 1, 6, 2, 4]);
    for p in 1..7 {
        assert_eq!(graph.node(p).num_successors(), 1);
    }
}

#[test]
fn branch_set_holds_each_node_once() {
    let mut set = BranchSet::new();
    assert!(!set.contains(3));
    assert!(set.insert(3));
    assert!(set.insert(5));
    assert!(!set.insert(3));
    assert!(set.contains(3));
    assert_eq!(set.members, vec![3, 5]);
    assert!(set.remove(3));
    assert!(!set.remove(3));
    assert_eq!(set.members, vec![5]);
}

#[test]
fn diamond_is_listed_once_each_and_in_order() {
    // root -> a, b; a -> c; b -> c; c -> d.
    let mut graph = graph_of(vec![leaf("a", 1), leaf("b", 1), leaf("c", 1), leaf("d", 1)]);
    for (from, to) in [(0, 1), (0, 2), (1, 3), (2, 3), (3, 4)] {
        add_predecessor(&mut graph, from, to);
    }
    let raw = topological_sort(&mut graph, 0);
    assert_eq!(raw, vec![0, 2, 1, 3, 4]);
    for v in 0..graph.len() {
        assert_eq!(raw.iter().filter(|&&w| w == v).count(), 1);
        assert!(graph.node(v).sorted);
    }
    let mut document = raw.clone();
    document.reverse();
    for (at, &v) in document.iter().enumerate() {
        for p in graph.node(v).predecessors() {
            assert!(document.iter().position(|&w| w == p).unwrap() < at);
        }
    }
    // A second walk finds every node listed already.
    assert_eq!(topological_sort(&mut graph, 0), Vec::<usize>::new());
}

#[test]
fn walk_follows_the_order_of_branches() {
    let mut graph = graph_of(vec![leaf("a", 1), leaf("b", 2), leaf("c", 3)]);
    for p in 1..4 {
        add_predecessor(&mut graph, 0, p);
    }
    let mut other = graph_of(vec![leaf("a", 1), leaf("b", 2), leaf("c", 3)]);
    for p in [3, 1, 2] {
        add_predecessor(&mut other, 0, p);
    }
    // Linked in any order, the branches stand in the order of their paths.
    assert_eq!(graph.node(0).predecessors(), vec![1, 2, 3]);
    assert_eq!(other.node(0).predecessors(), vec![1, 2, 3]);
    assert_eq!(topological_sort(&mut graph, 0), vec![0, 3, 2, 1]);
    // Ordered by cost, the dearest branch is pushed first and listed last.
    other.sort_predecessor_branches(0, false, BranchOrder::Cost);
    assert_eq!(other.node(0).predecessors(), vec![3, 2, 1]);
    assert_eq!(topological_sort(&mut other, 0), vec![0, 1, 2, 3]);
}

#[test]
fn registry_links_and_unlinks_by_name() {
    let mut graph = graph_of(vec![leaf("m", 1), leaf("z", 1), leaf("a", 1)]);
    graph.add_predecessor_node(1, 2);
    graph.add_predecessor_node(1, 3);
    graph.add_predecessor_node(1, 3);
    graph.add_predecessor_node(1, 1);
    assert_eq!(graph.node(1).predecessors(), vec![3, 2]);
    assert_eq!(graph.node(2).num_successors(), 1);
    assert_eq!(graph.node(3).num_successors(), 1);
    assert_eq!(graph.node(1).num_successors(), 0);
    graph.remove_predecessor(1, 2);
    assert_eq!(graph.node(1).predecessors(), vec![3]);
    assert_eq!(graph.node(2).num_successors(), 0);
    assert_eq!(graph.node(3).num_successors(), 1);
    // A node that is not held leaves everything as it is.
    graph.remove_predecessor(1, 2);
    graph.remove_predecessor(1, 0);
    assert_eq!(graph.node(1).predecessors(), vec![3]);
    assert_eq!(graph.node(2).num_successors(), 0);
}

#[test]
fn registry_puts_predecessors_in_the_order_of_paths() {
    let mut graph = graph_of(vec![leaf("c", 1), leaf("a", 9), leaf("b", 5)]);
    for p in 1..4 {
        add_predecessor(&mut graph, 0, p);
    }
    assert_eq!(graph.node(0).predecessors(), vec![2, 3, 1]);
    graph.sort_predecessor_branches(0, true, BranchOrder::Cost);
    assert_eq!(graph.node(0).predecessors(), vec![1, 3, 2]);
    graph.dedup_predecessors(0);
    assert_eq!(graph.node(0).predecessors(), vec![2, 3, 1]);
    for p in 1..4 {
        assert_eq!(graph.node(p).num_successors(), 1);
    }
    // An edge added to a list in another order puts the list in order.
    let mut late = graph_of(vec![leaf("c", 1), leaf("a", 9), leaf("b", 5), leaf("aa", 1)]);
    for p in 1..4 {
        add_predecessor(&mut late, 0, p);
    }
    late.sort_predecessor_branches(0, true, BranchOrder::Cost);
    add_predecessor(&mut late, 0, 4);
    assert_eq!(late.node(0).predecessors(), vec![2, 4, 3, 1]);
}

#[test]
fn ranks_are_found_where_no_cycle_is() {
    let mut graph = graph_of(vec![leaf("a", 1), leaf("b", 1), leaf("c", 1)]);
    for (from, to) in [(0, 1), (1, 2), (0, 2), (2, 3)] {
        add_predecessor(&mut graph, from, to);
    }
    let rank = graph.find_ranking().unwrap();
    assert!(graph.is_ranked_by(&rank));
    assert!(rank[0] > rank[1] && rank[1] > rank[2] && rank[2] > rank[3]);
    assert!(!graph.is_ranked_by(&vec![0, 0, 0, 0]));
    assert!(!graph.is_ranked_by(&vec![3, 2, 1]));
    add_predecessor(&mut graph, 3, 1);
    assert_eq!(graph.find_ranking(), None);
}

#[test]
fn nodes_are_equal_by_identity() {
    let a = leaf("a", 1);
    let mut same = leaf("a", 9);
    same.push_predecessor(3);
    let b = leaf("b", 1);
    assert!(a == same);
    assert!(a != b);
}

#[test]
fn ranks_fall_along_every_edge_of_a_diamond() {
    // root -> a, b; a -> c; b -> c; d stands alone.
    let mut graph = graph_of(vec![leaf("a", 1), leaf("b", 1), leaf("c", 1), leaf("d", 1)]);
    for (from, to) in [(0, 1), (0, 2), (1, 3), (2, 3)] {
        add_predecessor(&mut graph, from, to);
    }
    let rank = graph.find_ranking().unwrap();
    assert_eq!(rank.len(), 5);
    for v in 0..graph.len() {
        for p in graph.node(v).predecessors() {
            assert!(rank[p] < rank[v]);
        }
    }
    assert!(graph.is_ranked_by(&rank));
    // A registry without edges is ranked as well.
    let bare = graph_of(vec![leaf("a", 1)]);
    assert!(bare.find_ranking().is_some());
}

#[test]
fn a_cycle_anywhere_leaves_no_ranking() {
    // The cycle b -> c -> b is not below the root.
    let mut graph = graph_of(vec![leaf("a", 1), leaf("b", 1), leaf("c", 1)]);
    add_predecessor(&mut graph, 0, 1);
    add_predecessor(&mut graph, 2, 3);
    assert!(graph.find_ranking().is_some());
    add_predecessor(&mut graph, 3, 2);
    assert_eq!(graph.find_ranking(), None);
}

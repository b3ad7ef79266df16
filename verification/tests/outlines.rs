use tok::graph::{add_predecessor, Graph};
use tok::headings::{add_heading_titles_to_nodes, compute_min_dag_costs};
use tok::node::Node;
use tok::outline::{collect_references, heading_command, heading_label_prefix, max_heading_depth};
use tok::topic::Topic;

fn topic(id: &str, label: &str, dag_cost: usize, depth: usize) -> Node<Topic> {
    let mut data = Topic::new();
    data.label = label.to_string();
    data.heading_depth = depth;
    let mut node = Node::new(&id.to_string(), data);
    node.dag_cost = dag_cost;
    node
}

fn outline_of(nodes: Vec<Node<Topic>>) -> Graph<Topic> {
    let mut graph = Graph::new(topic("//", "", 1, 0));
    for node in nodes {
        graph.insert(node);
    }
    graph
}

#[test]
fn least_cost_of_a_section() {
    assert_eq!(compute_min_dag_costs(false, vec![]), 0);
    assert_eq!(compute_min_dag_costs(true, vec![]), 0);
    assert_eq!(compute_min_dag_costs(false, vec![1, 2, 3, 4, 5, 6, 7]), 0);
    assert_eq!(compute_min_dag_costs(true, vec![1, 2, 3, 4, 5, 6, 7]), 1);
    assert_eq!(compute_min_dag_costs(false, vec![5, 5, 5]), 5);
    assert_eq!(compute_min_dag_costs(false, vec![1, 10]), 0);
    assert_eq!(compute_min_dag_costs(false, vec![10, 20, 30, 40, 50, 60, 70, 80]), 40);
    assert_eq!(compute_min_dag_costs(true, vec![0, 0, 1, 3, 9]), 0);
    assert_eq!(compute_min_dag_costs(true, vec![0, 1, 1, 3, 9]), 0);
    assert_eq!(compute_min_dag_costs(false, vec![usize::MAX]), usize::MAX);
    // The sixth-largest cost is one, and the first cost reaches rank zero plus one.
    assert_eq!(compute_min_dag_costs(false, vec![1, 1, 1, 2, 2, 2, 9]), 1);
    // Equal costs share the rank of the first of them.
    assert_eq!(compute_min_dag_costs(false, vec![1, 4, 4, 4, 4, 4, 4, 9]), 0);
    assert_eq!(compute_min_dag_costs(true, vec![0, 1, 1, 1]), 0);
    assert_eq!(compute_min_dag_costs(false, vec![0, 3, 3, 3]), 0);
    assert_eq!(compute_min_dag_costs(false, vec![3, 3, 3, 3]), 3);
}

#[test]
fn dear_branches_stand_one_level_deeper() {
    // root -> a (dear), b (cheap); a -> c (dear, only child); a -> d.
    let mut graph = outline_of(vec![
        topic("a", "A", 10, 0),
        topic("b", "B", 1, 0),
        topic("c", "C", 9, 0),
        topic("d", "D", 8, 0),
        topic("e", "E", 7, 0),
    ]);
    for (from, to) in [(0, 1), (0, 2), (1, 3), (1, 4), (3, 5)] {
        add_predecessor(&mut graph, from, to);
    }
    graph.set_heading_depth(0, &5);
    assert_eq!(graph.node(0).data().heading_depth, 0);
    assert_eq!(graph.node(1).data().heading_depth, 1);
    assert_eq!(graph.node(2).data().heading_depth, 0);
    assert_eq!(graph.node(3).data().heading_depth, 2);
    assert_eq!(graph.node(4).data().heading_depth, 2);
    // The only predecessor of its node stays where it is.
    assert_eq!(graph.node(5).data().heading_depth, 0);
}

#[test]
fn titles_go_to_the_topic_that_opens_the_section() {
    let mut graph = outline_of(vec![
        topic("one", "One", 1, 1),
        topic("two", "Two", 1, 0),
        topic("three", "Three", 1, 1),
    ]);
    add_heading_titles_to_nodes(&mut graph, &vec![1, 2, 3]);
    let empty = String::new();
    assert_eq!(graph.node(1).data().heading_titles, Vec::<String>::new());
    assert_eq!(
        graph.node(2).data().heading_titles,
        vec!["One".to_string(), empty.clone(), empty.clone(), empty.clone(), empty.clone(), empty.clone()]
    );
    assert_eq!(
        graph.node(3).data().heading_titles,
        vec!["Three".to_string(), empty.clone(), empty.clone(), empty.clone(), empty.clone(), empty.clone()]
    );
    assert_eq!(graph.node(2).data().heading_depth_start, 1);
    assert_eq!(graph.node(3).data().heading_depth_start, 1);
    assert_eq!(graph.node(1).data().heading_depth_start, 0);
    assert_eq!(graph.node(1).data().heading_depth, 1);
    // An empty list changes nothing.
    add_heading_titles_to_nodes(&mut graph, &vec![]);
    assert_eq!(graph.node(3).data().heading_titles.len(), 6);
}

#[test]
fn heading_commands_by_depth() {
    assert_eq!(heading_command(0, 0), "");
    assert_eq!(heading_command(0, 1), "");
    assert_eq!(heading_command(1, 1), "section");
    assert_eq!(heading_command(1, 2), "");
    assert_eq!(heading_command(2, 1), "section");
    assert_eq!(heading_command(2, 2), "subsection");
    assert_eq!(heading_command(3, 1), "chapter");
    assert_eq!(heading_command(3, 3), "subsection");
    assert_eq!(heading_command(4, 4), "subsubsection");
    assert_eq!(heading_command(5, 1), "part");
    assert_eq!(heading_command(5, 5), "subsubsection");
    assert_eq!(heading_command(6, 1), "book");
    assert_eq!(heading_command(6, 6), "subsubsection");
    assert_eq!(heading_command(9, 2), "part");
    assert_eq!(heading_command(9, 7), "");
    assert_eq!(heading_label_prefix(3, 1), "ch");
    assert_eq!(heading_label_prefix(2, 2), "ssec");
    assert_eq!(heading_label_prefix(6, 1), "bk");
    assert_eq!(heading_label_prefix(5, 1), "pt");
    assert_eq!(heading_label_prefix(4, 4), "sssec");
    assert_eq!(heading_label_prefix(1, 1), "sec");
    assert_eq!(heading_label_prefix(1, 0), "");
}

#[test]
fn headings_go_six_levels_deep_at_most() {
    let graph = outline_of(vec![topic("a", "A", 1, 2), topic("b", "B", 1, 9), topic("c", "C", 1, 4)]);
    assert_eq!(max_heading_depth(&graph, &vec![1, 3]), 4);
    assert_eq!(max_heading_depth(&graph, &vec![1, 2, 3]), 6);
    assert_eq!(max_heading_depth(&graph, &vec![]), 0);
    assert_eq!(max_heading_depth(&graph, &vec![0]), 0);
}

#[test]
fn sources_are_listed_once_in_order() {
    let mut a = topic("a", "A", 1, 0);
    a.data_mut().src = vec!["@book{knuth}".to_string(), "@article{abel}".to_string()];
    let mut b = topic("b", "B", 1, 0);
    b.data_mut().src = vec!["@book{knuth}".to_string(), "@misc{zed}".to_string()];
    let mut c = topic("c", "C", 1, 0);
    c.data_mut().src = vec!["@misc{unlisted}".to_string()];
    let graph = outline_of(vec![a, b, c]);
    assert_eq!(
        collect_references(&graph, &vec![2, 1, 2]),
        vec!["@article{abel}".to_string(), "@book{knuth}".to_string(), "@misc{zed}".to_string()]
    );
    assert_eq!(collect_references(&graph, &vec![]), Vec::<String>::new());
}

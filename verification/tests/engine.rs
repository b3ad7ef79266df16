use tok::branch::BranchSet;
use tok::dag::build_dag_from_nodes;
use tok::graph::{add_predecessor, Graph};
use tok::loader::load_node;
use tok::merger::{keep_first_in_document, merge, nodes_with_deadlines};
use tok::node::{Deadline, Node};
use tok::options::Options;
use tok::pipeline::build_graph_wrapper;
use tok::reducer::remove_indirect_predecessors;
use tok::sequencer::topological_sort;

/// What a test knows of one topic.
#[derive(Clone)]
struct Record {
    id: &'static str,
    after: Vec<&'static str>,
    before: Vec<&'static str>,
    cost: usize,
    deadline: Option<(usize, usize, usize)>,
}

fn rec(id: &'static str, after: Vec<&'static str>) -> Record {
    Record { id, after, before: vec![], cost: 1, deadline: None }
}

fn find(records: &Vec<Record>, id: &String) -> Option<Record> {
    for r in records.iter() {
        if r.id == id.as_str() {
            return Some(r.clone());
        }
    }
    None
}

fn make(id: &String, r: Record) -> Node<u32> {
    let mut node = Node::new(id, 0u32);
    node.after = r.after.iter().map(|s| s.to_string()).collect();
    node.before = r.before.iter().map(|s| s.to_string()).collect();
    node.cost = r.cost;
    node.dag_cost = r.cost;
    node.deadline = r.deadline.map(|(year, month, day)| Deadline { year, month, day });
    node
}

fn options(reverse: bool) -> Options {
    Options {
        verbose: false,
        yaml: false,
        reverse,
        show_wiki: false,
        show_urls: false,
        show_q: false,
        show_proofs: true,
        crib: false,
        examples: false,
        exercises: false,
        generalizations_before: false,
        write_appendix: true,
        eli5: false,
        make_pdf: false,
        make_tex: false,
        generate_headings: false,
        extra_headings: false,
        depth: -1,
        title: String::new(),
        author: String::new(),
        date: String::new(),
        output: String::new(),
        engine: String::new(),
        files: vec![],
    }
}

fn graph_with_root(after: Vec<&'static str>) -> Graph<u32> {
    let mut root = Node::new(&"//".to_string(), 0u32);
    root.after = after.iter().map(|s| s.to_string()).collect();
    root.sorted = true;
    Graph::new(root)
}

fn ids(graph: &Graph<u32>, list: &Vec<usize>) -> Vec<String> {
    list.iter().map(|&i| graph.node(i).path.clone()).collect()
}

fn names(list: Vec<&str>) -> Vec<String> {
    list.iter().map(|s| s.to_string()).collect()
}

#[test]
fn chain_is_listed_dependents_first() {
    let records = vec![rec("A", vec![]), rec("B", vec!["A"]), rec("C", vec!["A", "B"])];
    let read = |id: &String| find(&records, id);
    let mut graph = graph_with_root(vec!["A", "B", "C"]);
    let built = build_graph_wrapper(0, &mut graph, &read, &make, &options(false), -1);
    assert!(built.is_ok());
    let raw = topological_sort(&mut graph, 0);
    assert_eq!(ids(&graph, &raw), names(vec!["C", "B", "A"]));
    let mut document = raw.clone();
    document.reverse();
    assert_eq!(ids(&graph, &document), names(vec!["A", "B", "C"]));
}

#[test]
fn chain_from_single_target() {
    let records = vec![rec("A", vec![]), rec("B", vec!["A"]), rec("C", vec!["A", "B"])];
    let read = |id: &String| find(&records, id);
    let mut graph = graph_with_root(vec!["C"]);
    let built = build_graph_wrapper(0, &mut graph, &read, &make, &options(false), -1);
    assert!(built.is_ok());
    // The direct edge from C to A is implied by the one through B.
    let c = graph.find(&"C".to_string()).unwrap();
    let b = graph.find(&"B".to_string()).unwrap();
    let a = graph.find(&"A".to_string()).unwrap();
    assert_eq!(graph.node(c).predecessors(), vec![b]);
    assert_eq!(graph.node(b).predecessors(), vec![a]);
    assert_eq!(graph.node(a).num_successors(), 1);
    let raw = topological_sort(&mut graph, 0);
    assert_eq!(ids(&graph, &raw), names(vec!["C", "B", "A"]));
}

#[test]
fn root_is_listed_first_when_not_marked() {
    let records = vec![rec("A", vec![])];
    let read = |id: &String| find(&records, id);
    let mut root = Node::new(&"//".to_string(), 0u32);
    root.after = vec!["A".to_string()];
    let mut graph = Graph::new(root);
    assert!(build_graph_wrapper(0, &mut graph, &read, &make, &options(false), -1).is_ok());
    let raw = topological_sort(&mut graph, 0);
    assert_eq!(ids(&graph, &raw), names(vec!["//", "A"]));
}

#[test]
fn mutual_cycle_keeps_one_direction() {
    let records = vec![rec("A", vec!["B"]), rec("B", vec!["A"])];
    let read = |id: &String| find(&records, id);
    let mut graph = graph_with_root(vec!["A"]);
    let mut pbranch = BranchSet::new();
    let mut sbranch = BranchSet::new();
    let built = build_dag_from_nodes(0, &mut graph, &mut pbranch, &mut sbranch, &read, &make, -1);
    assert!(built.is_ok());
    assert!(pbranch.members.is_empty());
    assert!(sbranch.members.is_empty());
    let a = graph.find(&"A".to_string()).unwrap();
    let b = graph.find(&"B".to_string()).unwrap();
    assert_eq!(graph.node(a).predecessors(), vec![b]);
    assert_eq!(graph.node(b).predecessors(), Vec::<usize>::new());
    for i in 0..graph.len() {
        remove_indirect_predecessors(&mut graph, i);
    }
    assert_eq!(graph.node(a).num_predecessors(), 1);
    assert_eq!(graph.node(b).num_predecessors(), 0);
    let raw = topological_sort(&mut graph, 0);
    assert_eq!(ids(&graph, &raw), names(vec!["A", "B"]));
}

#[test]
fn total_cycle_terminates_and_keeps_an_edge() {
    let all = vec!["A", "B", "C", "D"];
    let mut records = vec![];
    for id in all.iter() {
        let others: Vec<&'static str> = all.iter().filter(|o| *o != id).cloned().collect();
        records.push(Record {
            id,
            after: others.clone(),
            before: others,
            cost: 1,
            deadline: None,
        });
    }
    let read = |id: &String| find(&records, id);
    let mut graph = graph_with_root(vec!["A", "B", "C", "D"]);
    assert!(build_graph_wrapper(0, &mut graph, &read, &make, &options(false), -1).is_ok());
    let mut edges = 0;
    for i in 0..graph.len() {
        let preds = graph.node(i).predecessors();
        let mut seen = preds.clone();
        seen.sort();
        seen.dedup();
        assert_eq!(seen.len(), preds.len());
        edges += preds.len();
    }
    assert!(edges >= 1);
    assert!(graph.node(0).num_predecessors() >= 1);
    let raw = topological_sort(&mut graph, 0);
    let mut seen = raw.clone();
    seen.sort();
    seen.dedup();
    assert_eq!(seen.len(), raw.len());
}

#[test]
fn loading_twice_reads_once() {
    let reads = std::cell::Cell::new(0usize);
    let records = vec![rec("x", vec![])];
    let read = |id: &String| {
        reads.set(reads.get() + 1);
        find(&records, id)
    };
    let mut graph = graph_with_root(vec![]);
    let first = load_node(&mut graph, &"../x".to_string(), &read, &make).ok().unwrap();
    let second = load_node(&mut graph, &"./x".to_string(), &read, &make).ok().unwrap();
    let third = load_node(&mut graph, &"x".to_string(), &read, &make).ok().unwrap();
    assert_eq!(first, 1);
    assert_eq!(second, first);
    assert_eq!(third, first);
    assert_eq!(reads.get(), 1);
    assert_eq!(graph.len(), 2);
    assert_eq!(graph.node(first).path, "x");
}

#[test]
fn missing_record_is_reported_with_its_identity() {
    let records = vec![rec("A", vec!["gone"])];
    let read = |id: &String| find(&records, id);
    let mut graph = graph_with_root(vec!["A"]);
    let built = build_graph_wrapper(0, &mut graph, &read, &make, &options(false), -1);
    match built {
        Ok(_) => panic!("a record was missing"),
        Err(e) => assert_eq!(e.id, "gone"),
    }
    let alone = load_node(&mut graph, &"./nowhere".to_string(), &read, &make);
    match alone {
        Ok(_) => panic!("a record was missing"),
        Err(e) => assert_eq!(e.id, "nowhere"),
    }
}

#[test]
fn duplicate_edges_are_not_added() {
    let mut graph = graph_with_root(vec![]);
    let a = graph.insert(Node::new(&"a".to_string(), 0u32));
    let b = graph.insert(Node::new(&"b".to_string(), 0u32));
    add_predecessor(&mut graph, a, b);
    add_predecessor(&mut graph, a, b);
    add_predecessor(&mut graph, a, a);
    assert_eq!(graph.node(a).predecessors(), vec![b]);
    assert_eq!(graph.node(b).num_successors(), 1);
    assert_eq!(graph.node(a).num_successors(), 0);
}

#[test]
fn deadlines_come_first_in_reading_order() {
    let records = vec![
        Record { id: "D1", after: vec![], before: vec![], cost: 1, deadline: Some((2024, 1, 1)) },
        Record { id: "D2", after: vec![], before: vec![], cost: 1, deadline: Some((2024, 6, 1)) },
        rec("P", vec![]),
    ];
    let read = |id: &String| find(&records, id);
    let mut graph = graph_with_root(vec!["P", "D2", "D1"]);
    assert!(build_graph_wrapper(0, &mut graph, &read, &make, &options(false), -1).is_ok());
    let deadlines = nodes_with_deadlines(&graph, false);
    assert_eq!(ids(&graph, &deadlines), names(vec!["D1", "D2"]));
    let merged = merge(&mut graph, 0, &deadlines, &read, &make, &options(false), -1);
    let raw = merged.ok().unwrap();
    let mut document = raw.clone();
    document.reverse();
    let order = ids(&graph, &document);
    assert_eq!(order[0], "D1");
    assert_eq!(order[1], "D2");
    assert!(order[2..].contains(&"P".to_string()));
    assert_eq!(graph.node(0).after, names(vec!["P", "D2", "D1"]));
}

#[test]
fn walking_twice_gives_the_same_list() {
    let records =
        vec![rec("A", vec!["C", "D"]), rec("B", vec!["D"]), rec("C", vec!["D"]), rec("D", vec![])];
    let read = |id: &String| find(&records, id);
    let mut first = graph_with_root(vec!["A", "B"]);
    let mut second = graph_with_root(vec!["A", "B"]);
    assert!(build_graph_wrapper(0, &mut first, &read, &make, &options(false), -1).is_ok());
    assert!(build_graph_wrapper(0, &mut second, &read, &make, &options(false), -1).is_ok());
    let one = topological_sort(&mut first, 0);
    let two = topological_sort(&mut second, 0);
    assert_eq!(one, two);
    // Every node once, and every node before its predecessors.
    assert_eq!(one.len(), 4);
    for (position, &v) in one.iter().enumerate() {
        for p in first.node(v).predecessors() {
            let at = one.iter().position(|&w| w == p).unwrap();
            assert!(position < at);
        }
    }
}

#[test]
fn deadline_branches_bring_what_they_depend_on() {
    let records = vec![
        Record { id: "D1", after: vec!["X"], before: vec![], cost: 1, deadline: Some((2024, 1, 1)) },
        Record { id: "D2", after: vec!["X"], before: vec![], cost: 1, deadline: Some((2024, 6, 1)) },
        rec("P", vec!["Y"]),
        rec("X", vec![]),
        rec("Y", vec![]),
    ];
    let read = |id: &String| find(&records, id);
    let mut graph = graph_with_root(vec!["D2", "P", "D1"]);
    assert!(build_graph_wrapper(0, &mut graph, &read, &make, &options(false), -1).is_ok());
    let deadlines = nodes_with_deadlines(&graph, false);
    assert_eq!(ids(&graph, &deadlines), names(vec!["D1", "D2"]));
    let raw = merge(&mut graph, 0, &deadlines, &read, &make, &options(false), -1).ok().unwrap();
    let mut document = raw.clone();
    document.reverse();
    let order = ids(&graph, &document);
    assert_eq!(order[..4].to_vec(), names(vec!["X", "D1", "X", "D2"]));
    // Each topic where the document shows it first.
    let mut once = keep_first_in_document(&raw);
    once.reverse();
    let shown = ids(&graph, &once);
    assert_eq!(shown[..3].to_vec(), names(vec!["X", "D1", "D2"]));
    assert_eq!(shown.len(), 5);
    assert_eq!(keep_first_in_document(&vec![3, 1, 3, 2, 1]), vec![3, 2, 1]);
    assert_eq!(keep_first_in_document(&vec![]), Vec::<usize>::new());
    let rest = order[4..].to_vec();
    assert!(rest.contains(&"P".to_string()) && rest.contains(&"Y".to_string()));
    let y = rest.iter().position(|n| n == "Y").unwrap();
    let p = rest.iter().position(|n| n == "P").unwrap();
    assert!(y < p);
    assert!(!order.contains(&"//".to_string()));
}

#[test]
fn merge_without_deadlines_is_one_walk() {
    let records = vec![rec("A", vec!["B"]), rec("B", vec![])];
    let read = |id: &String| find(&records, id);
    let mut graph = graph_with_root(vec!["A"]);
    let raw = merge(&mut graph, 0, &vec![], &read, &make, &options(false), -1).ok().unwrap();
    assert_eq!(ids(&graph, &raw), names(vec!["A", "B"]));
}

#[test]
fn merge_reports_a_missing_record() {
    let records = vec![rec("A", vec!["gone"])];
    let read = |id: &String| find(&records, id);
    let mut graph = graph_with_root(vec!["A"]);
    match merge(&mut graph, 0, &vec![], &read, &make, &options(false), -1) {
        Ok(_) => panic!("a record was missing"),
        Err(e) => assert_eq!(e.id, "gone"),
    }
}

#[test]
fn topics_that_come_before_hang_from_the_root() {
    // A comes before S, so S depends on A and is reached from the root.
    let records = vec![
        Record { id: "A", after: vec![], before: vec!["S"], cost: 1, deadline: None },
        rec("S", vec![]),
    ];
    let read = |id: &String| find(&records, id);
    let mut graph = graph_with_root(vec!["A"]);
    let mut pbranch = BranchSet::new();
    let mut sbranch = BranchSet::new();
    assert!(build_dag_from_nodes(0, &mut graph, &mut pbranch, &mut sbranch, &read, &make, -1).is_ok());
    let a = graph.find(&"A".to_string()).unwrap();
    let s = graph.find(&"S".to_string()).unwrap();
    assert_eq!(graph.node(0).predecessors(), vec![a, s]);
    assert_eq!(graph.node(s).predecessors(), vec![a]);
    assert_eq!(graph.node(a).num_successors(), 2);

    // With no depth to go forward, S is not even loaded.
    let mut shallow = graph_with_root(vec!["A"]);
    let mut pbranch = BranchSet::new();
    let mut sbranch = BranchSet::new();
    assert!(build_dag_from_nodes(0, &mut shallow, &mut pbranch, &mut sbranch, &read, &make, 0).is_ok());
    assert_eq!(shallow.find(&"S".to_string()), None);
    assert_eq!(shallow.len(), 2);
}

#[test]
fn forward_depth_is_counted_down() {
    // A before B before C before D.
    let records = vec![
        Record { id: "A", after: vec![], before: vec!["B"], cost: 1, deadline: None },
        Record { id: "B", after: vec![], before: vec!["C"], cost: 1, deadline: None },
        Record { id: "C", after: vec![], before: vec!["D"], cost: 1, deadline: None },
        rec("D", vec![]),
    ];
    let read = |id: &String| find(&records, id);
    let mut graph = graph_with_root(vec!["A"]);
    let mut pbranch = BranchSet::new();
    let mut sbranch = BranchSet::new();
    // One step is spent on the way from the root to A, one from A to B.
    assert!(build_dag_from_nodes(0, &mut graph, &mut pbranch, &mut sbranch, &read, &make, 3).is_ok());
    assert!(graph.find(&"B".to_string()).is_some());
    assert!(graph.find(&"C".to_string()).is_some());
    assert_eq!(graph.find(&"D".to_string()), None);
}

#[test]
fn a_topic_that_names_itself_gets_no_edge() {
    let records = vec![Record {
        id: "A",
        after: vec!["./A", "//"],
        before: vec!["A", "//"],
        cost: 1,
        deadline: None,
    }];
    let read = |id: &String| find(&records, id);
    let mut graph = graph_with_root(vec!["A"]);
    assert!(build_graph_wrapper(0, &mut graph, &read, &make, &options(false), -1).is_ok());
    let a = graph.find(&"A".to_string()).unwrap();
    assert_eq!(graph.node(a).predecessors(), Vec::<usize>::new());
    assert_eq!(graph.node(0).predecessors(), vec![a]);
    assert_eq!(graph.node(0).num_successors(), 0);
}

#[test]
fn pipeline_weighs_and_orders_branches() {
    let records = vec![
        Record { id: "small", after: vec![], before: vec![], cost: 2, deadline: None },
        Record { id: "big", after: vec!["leaf"], before: vec![], cost: 5, deadline: None },
        Record { id: "leaf", after: vec![], before: vec![], cost: 4, deadline: None },
    ];
    let read = |id: &String| find(&records, id);
    let mut graph = graph_with_root(vec!["small", "big"]);
    assert!(build_graph_wrapper(0, &mut graph, &read, &make, &options(false), -1).is_ok());
    let small = graph.find(&"small".to_string()).unwrap();
    let big = graph.find(&"big".to_string()).unwrap();
    assert_eq!(graph.node(big).dag_cost(), 9);
    assert_eq!(graph.node(small).dag_cost(), 2);
    assert_eq!(graph.node(0).dag_cost(), 12);
    assert_eq!(graph.node(0).predecessors(), vec![big, small]);
    let mut cheap_first = graph_with_root(vec!["small", "big"]);
    assert!(build_graph_wrapper(0, &mut cheap_first, &read, &make, &options(true), -1).is_ok());
    assert_eq!(cheap_first.node(0).predecessors(), vec![small, big]);
}

#[test]
fn a_topic_reached_forward_keeps_what_it_comes_after() {
    // The root comes after A, A comes before S, S comes after T, and T
    // comes after A: no cycle, so every edge is there.
    let records = vec![
        Record { id: "A", after: vec![], before: vec!["S"], cost: 1, deadline: None },
        rec("S", vec!["T"]),
        rec("T", vec!["A"]),
    ];
    let read = |id: &String| find(&records, id);
    let mut graph = graph_with_root(vec!["A"]);
    let mut pbranch = BranchSet::new();
    let mut sbranch = BranchSet::new();
    assert!(build_dag_from_nodes(0, &mut graph, &mut pbranch, &mut sbranch, &read, &make, -1).is_ok());
    assert!(pbranch.members.is_empty());
    assert!(sbranch.members.is_empty());
    let a = graph.find(&"A".to_string()).unwrap();
    let s = graph.find(&"S".to_string()).unwrap();
    let t = graph.find(&"T".to_string()).unwrap();
    assert_eq!(graph.node(t).predecessors(), vec![a]);
    assert_eq!(graph.node(s).predecessors(), vec![a, t]);
    assert_eq!(graph.node(0).predecessors(), vec![a, s]);
    assert_eq!(graph.node(a).predecessors(), Vec::<usize>::new());
    assert_eq!(graph.node(a).num_successors(), 3);
    assert_eq!(graph.node(s).num_successors(), 1);
    assert_eq!(graph.node(t).num_successors(), 1);
}

#[test]
fn topics_registered_beforehand_keep_every_declared_edge() {
    let records = vec![
        Record { id: "A", after: vec![], before: vec!["S"], cost: 1, deadline: None },
        rec("S", vec!["T"]),
        rec("T", vec!["A"]),
    ];
    let read = |id: &String| find(&records, id);
    let mut graph = graph_with_root(vec!["A"]);
    for id in ["A", "S", "T"].iter() {
        assert!(load_node(&mut graph, &id.to_string(), &read, &make).is_ok());
    }
    assert_eq!(graph.len(), 4);
    let mut pbranch = BranchSet::new();
    let mut sbranch = BranchSet::new();
    assert!(build_dag_from_nodes(0, &mut graph, &mut pbranch, &mut sbranch, &read, &make, -1).is_ok());
    assert_eq!(graph.len(), 4);
    let a = graph.find(&"A".to_string()).unwrap();
    let s = graph.find(&"S".to_string()).unwrap();
    let t = graph.find(&"T".to_string()).unwrap();
    assert!(graph.node(t).has_predecessor(a));
    assert!(graph.node(s).has_predecessor(a));
    assert!(graph.node(s).has_predecessor(t));
    assert!(graph.node(0).has_predecessor(a));
    assert!(graph.node(0).has_predecessor(s));
    // Nothing but what is declared.
    assert_eq!(graph.node(t).num_predecessors(), 1);
    assert_eq!(graph.node(s).num_predecessors(), 2);
    assert_eq!(graph.node(0).num_predecessors(), 2);
    assert_eq!(graph.node(a).num_predecessors(), 0);
}

#[test]
fn a_diamond_is_gone_through_once() {
    // Both B and C come after D; D is read once and linked from both.
    let records = vec![
        rec("A", vec!["B", "C"]),
        rec("B", vec!["D"]),
        rec("C", vec!["D"]),
        rec("D", vec![]),
    ];
    let reads = std::cell::Cell::new(0usize);
    let read = |id: &String| {
        reads.set(reads.get() + 1);
        find(&records, id)
    };
    let mut graph = graph_with_root(vec!["A"]);
    let mut pbranch = BranchSet::new();
    let mut sbranch = BranchSet::new();
    assert!(build_dag_from_nodes(0, &mut graph, &mut pbranch, &mut sbranch, &read, &make, -1).is_ok());
    assert_eq!(reads.get(), 4);
    let a = graph.find(&"A".to_string()).unwrap();
    let b = graph.find(&"B".to_string()).unwrap();
    let c = graph.find(&"C".to_string()).unwrap();
    let d = graph.find(&"D".to_string()).unwrap();
    assert_eq!(graph.node(a).predecessors(), vec![b, c]);
    assert_eq!(graph.node(b).predecessors(), vec![d]);
    assert_eq!(graph.node(c).predecessors(), vec![d]);
    assert_eq!(graph.node(d).num_successors(), 2);
    // Building again adds nothing.
    assert!(build_dag_from_nodes(0, &mut graph, &mut pbranch, &mut sbranch, &read, &make, -1).is_ok());
    assert_eq!(reads.get(), 4);
    assert_eq!(graph.node(d).num_successors(), 2);
    assert_eq!(graph.node(0).predecessors(), vec![a]);
}

#[test]
fn an_edge_declared_from_both_ends_is_there_once() {
    // X comes after Y and Y comes before X: one edge.
    let records = vec![
        rec("X", vec!["Y"]),
        Record { id: "Y", after: vec![], before: vec!["X"], cost: 1, deadline: None },
    ];
    let read = |id: &String| find(&records, id);
    let mut graph = graph_with_root(vec!["X"]);
    let mut pbranch = BranchSet::new();
    let mut sbranch = BranchSet::new();
    assert!(build_dag_from_nodes(0, &mut graph, &mut pbranch, &mut sbranch, &read, &make, -1).is_ok());
    let x = graph.find(&"X".to_string()).unwrap();
    let y = graph.find(&"Y".to_string()).unwrap();
    assert_eq!(graph.node(x).predecessors(), vec![y]);
    assert_eq!(graph.node(y).predecessors(), Vec::<usize>::new());
    assert_eq!(graph.node(y).num_successors(), 1);
    assert_eq!(graph.node(0).predecessors(), vec![x]);
}

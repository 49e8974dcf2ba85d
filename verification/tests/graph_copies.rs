use egui_node_graph::graph::InputParamKind;
use egui_node_graph::graph_impls::Graph;
use egui_node_graph::id_type::InputId;
use egui_node_graph::id_type::NodeId;
use egui_node_graph::id_type::OutputId;

type TestGraph = Graph<String, u32, i64>;

struct Sample {
    graph: TestGraph,
    a: NodeId,
    b: NodeId,
    c: NodeId,
    a_out: OutputId,
    b_in: InputId,
    c_in: InputId,
}

/// A drives B and C.
fn sample() -> Sample {
    let mut graph = TestGraph::new();
    let a = graph.add_node("a".to_string(), "da".to_string());
    let b = graph.add_node("b".to_string(), "db".to_string());
    let c = graph.add_node("c".to_string(), "dc".to_string());
    let a_out = graph.add_output_param(a, "out".to_string(), 1);
    let b_in =
        graph.add_input_param(b, "in".to_string(), 1, 10, InputParamKind::ConnectionOnly, true);
    let c_in =
        graph.add_input_param(c, "in".to_string(), 1, 20, InputParamKind::ConstantOnly, false);
    graph.add_connection(a_out, b_in);
    graph.add_connection(a_out, c_in);
    Sample { graph, a, b, c, a_out, b_in, c_in }
}

#[test]
fn duplicating_a_and_b_copies_only_the_connection_between_them() {
    let Sample { mut graph, a, b, c, a_out, b_in, c_in } = sample();
    let pairs = graph.duplicate_nodes(&vec![a, b]);
    assert_eq!(pairs.len(), 2);
    assert_eq!(pairs[0].0, a);
    assert_eq!(pairs[1].0, b);
    let a2 = pairs[0].1;
    let b2 = pairs[1].1;
    assert!(a2 != a && a2 != b && a2 != c && b2 != a && b2 != b && b2 != c && a2 != b2);
    let a2_out = graph.get_node(a2).output_ids()[0];
    let b2_in = graph.get_node(b2).input_ids()[0];
    assert_ne!(a2_out, a_out);
    assert_ne!(b2_in, b_in);
    assert_eq!(
        graph.iter_connections(),
        vec![(b_in, a_out), (c_in, a_out), (b2_in, a2_out)]
    );
    assert_eq!(graph.iter_nodes().len(), 5);
}

#[test]
fn a_copy_has_the_label_payload_and_ports_of_what_it_copies() {
    let Sample { mut graph, b, b_in, .. } = sample();
    let pairs = graph.duplicate_nodes(&vec![b]);
    let b2 = pairs[0].1;
    let copy = graph.get_node(b2);
    assert_eq!(copy.id, b2);
    assert_eq!(copy.label, "b");
    assert_eq!(copy.user_data, "db");
    assert_eq!(copy.inputs.len(), 1);
    assert_eq!(copy.inputs[0].0, "in");
    assert!(copy.outputs.is_empty());
    let port = graph.get_input(copy.inputs[0].1);
    assert_ne!(port.id, b_in);
    assert_eq!(port.id, copy.inputs[0].1);
    assert_eq!(port.node, b2);
    assert_eq!(port.typ, 1);
    assert_eq!(port.value, 10);
    assert_eq!(port.kind(), InputParamKind::ConnectionOnly);
    assert!(port.shown_inline);
    assert_eq!(graph.connection(port.id), None);
    assert_eq!(graph.get_input(b_in).node, b);
}

#[test]
fn duplicating_passes_over_identities_that_the_graph_lacks() {
    let Sample { mut graph, a, c, .. } = sample();
    let stale = NodeId { key: 0x5_0000_0009 };
    let pairs = graph.duplicate_nodes(&vec![stale, c, a]);
    assert_eq!(pairs.len(), 2);
    assert_eq!(pairs[0].0, c);
    assert_eq!(pairs[1].0, a);
    assert!(graph.duplicate_nodes(&vec![stale]).is_empty());
    assert!(graph.duplicate_nodes(&vec![]).is_empty());
}

#[test]
fn duplicate_node_copies_one_node_or_none() {
    let Sample { mut graph, a, .. } = sample();
    let copy = graph.duplicate_node(a).unwrap();
    assert_eq!(graph.get_node(copy).label, "a");
    assert_eq!(graph.get_node(copy).outputs.len(), 1);
    assert_eq!(graph.iter_connections().len(), 2);
    assert_eq!(graph.duplicate_node(NodeId { key: 77 }), None);
    assert_eq!(graph.iter_nodes().len(), 4);
}

#[test]
fn merge_copies_every_node_and_every_connection() {
    let Sample { graph: other, a, b, c, a_out, b_in, c_in } = sample();
    let mut graph = TestGraph::new();
    let own = graph.add_node("own".to_string(), "d".to_string());
    let pairs = graph.merge(&other);
    assert_eq!(pairs.len(), 3);
    assert_eq!((pairs[0].0, pairs[1].0, pairs[2].0), (a, b, c));
    let (a2, b2, c2) = (pairs[0].1, pairs[1].1, pairs[2].1);
    assert_eq!(graph.iter_nodes(), vec![own, a2, b2, c2]);
    let a2_out = graph.get_node(a2).output_ids()[0];
    let b2_in = graph.get_node(b2).input_ids()[0];
    let c2_in = graph.get_node(c2).input_ids()[0];
    assert_eq!(graph.iter_connections(), vec![(b2_in, a2_out), (c2_in, a2_out)]);
    assert_eq!(graph.get_node(c2).user_data, "dc");
    assert_eq!(graph.get_input(c2_in).value, 20);
    assert_eq!(graph.get_input(c2_in).kind(), InputParamKind::ConstantOnly);
    assert_eq!(graph.get_output(a2_out).node, a2);
    // The other graph is as it was.
    assert_eq!(other.iter_nodes(), vec![a, b, c]);
    assert_eq!(other.iter_connections(), vec![(b_in, a_out), (c_in, a_out)]);
}

#[test]
fn merging_twice_gives_two_separate_copies() {
    let Sample { graph: other, .. } = sample();
    let mut graph = TestGraph::new();
    let first = graph.merge(&other);
    let second = graph.merge(&other);
    assert_eq!(graph.iter_nodes().len(), 6);
    assert_eq!(graph.iter_connections().len(), 4);
    for (_, copy) in first.iter() {
        assert!(second.iter().all(|(_, other_copy)| other_copy != copy));
    }
}

#[test]
fn from_nodes_keeps_the_listed_nodes_under_their_identities() {
    let Sample { graph, a, b, c, a_out, b_in, c_in } = sample();
    let part = graph.from_nodes(&vec![b, a]);
    assert_eq!(part.iter_nodes(), vec![a, b]);
    assert_eq!(part.iter_connections(), vec![(b_in, a_out)]);
    assert!(part.try_get_input(c_in).is_none());
    assert_eq!(part.get_node(a).label, "a");
    assert_eq!(part.get_node(b).user_data, "db");
    assert_eq!(part.get_input(b_in).value, 10);
    // The graph itself is as it was.
    assert_eq!(graph.iter_nodes(), vec![a, b, c]);
    assert_eq!(graph.iter_connections().len(), 2);
    let none = graph.from_nodes(&vec![]);
    assert!(none.iter_nodes().is_empty());
    assert!(none.iter_connections().is_empty());
    let only_c = graph.from_nodes(&vec![c, NodeId { key: 1 }]);
    assert_eq!(only_c.iter_nodes(), vec![c]);
    assert!(only_c.iter_connections().is_empty());
    assert!(only_c.try_get_input(c_in).is_some());
}

#[test]
fn a_clone_issues_the_identities_that_the_cloned_graph_would() {
    let Sample { mut graph, a, b, a_out, b_in, c_in, .. } = sample();
    graph.remove_node(b);
    let mut copy = graph.clone();
    assert_eq!(copy.iter_nodes(), graph.iter_nodes());
    assert_eq!(copy.iter_connections(), vec![(c_in, a_out)]);
    assert!(copy.try_get_input(b_in).is_none());
    let in_copy = copy.add_node("x".to_string(), String::new());
    let in_graph = graph.add_node("y".to_string(), String::new());
    assert_eq!(in_copy, in_graph);
    assert_eq!(in_copy.key, 0x3_0000_0002);
    assert_eq!(copy.get_node(in_copy).label, "x");
    assert_eq!(graph.get_node(in_graph).label, "y");
    assert_eq!(copy.get_node(a).label, "a");
}

use egui_node_graph::graph::EguiGraphError;
use egui_node_graph::graph::InputParamKind;
use egui_node_graph::graph_impls::Graph;
use egui_node_graph::id_type::AnyParameterId;
use egui_node_graph::id_type::InputId;
use egui_node_graph::id_type::NodeId;
use egui_node_graph::id_type::OutputId;

type TestGraph = Graph<&'static str, u32, i64>;

fn input(graph: &mut TestGraph, node: NodeId, name: &str, typ: u32) -> InputId {
    graph.add_input_param(
        node,
        name.to_string(),
        typ,
        0,
        InputParamKind::ConnectionOrConstant,
        true,
    )
}

#[test]
fn new_graph_is_empty() {
    let graph = TestGraph::new();
    assert!(graph.iter_nodes().is_empty());
    assert!(graph.iter_connections().is_empty());
    assert!(TestGraph::default().iter_nodes().is_empty());
}

#[test]
fn first_keys_have_slot_one_and_two_and_version_one() {
    let mut graph = TestGraph::new();
    let a = graph.add_node("a".to_string(), "da");
    let b = graph.add_node("b".to_string(), "db");
    assert_eq!(a.key, 0x1_0000_0001);
    assert_eq!(b.key, 0x1_0000_0002);
    assert_ne!(a, b);
    assert_eq!(graph.iter_nodes(), vec![a, b]);
}

#[test]
fn add_node_stores_label_and_payload_without_ports() {
    let mut graph = TestGraph::new();
    let a = graph.add_node("adder".to_string(), "payload");
    let node = graph.get_node(a);
    assert_eq!(node.id, a);
    assert_eq!(node.label, "adder");
    assert_eq!(node.user_data, "payload");
    assert!(node.inputs.is_empty());
    assert!(node.outputs.is_empty());
    assert!(graph.try_get_node(NodeId { key: a.key + 1 }).is_none());
}

#[test]
fn ports_are_appended_in_order_and_know_their_node() {
    let mut graph = TestGraph::new();
    let a = graph.add_node("a".to_string(), "");
    let x = input(&mut graph, a, "x", 1);
    let y = graph.add_input_param(
        a,
        "y".to_string(),
        2,
        42,
        InputParamKind::ConstantOnly,
        false,
    );
    let out = graph.add_output_param(a, "out".to_string(), 3);
    let node = graph.get_node(a);
    assert_eq!(node.input_ids(), vec![x, y]);
    assert_eq!(node.output_ids(), vec![out]);
    assert_eq!(node.inputs[1].0, "y");
    let port = graph.get_input(y);
    assert_eq!(port.id, y);
    assert_eq!(port.node, a);
    assert_eq!(port.typ, 2);
    assert_eq!(port.value, 42);
    assert_eq!(port.kind(), InputParamKind::ConstantOnly);
    assert!(!port.shown_inline);
    let port = graph.get_output(out);
    assert_eq!(port.id, out);
    assert_eq!(port.node, a);
    assert_eq!(port.typ, 3);
    let inputs = node.inputs(&graph);
    assert_eq!(inputs.len(), 2);
    assert_eq!(inputs[0].id, x);
    assert_eq!(inputs[1].id, y);
    let outputs = node.outputs(&graph);
    assert_eq!(outputs.len(), 1);
    assert_eq!(outputs[0].id, out);
}

#[test]
fn port_lookup_by_name_takes_the_first_match() {
    let mut graph = TestGraph::new();
    let a = graph.add_node("a".to_string(), "");
    let first = input(&mut graph, a, "same", 1);
    let _second = input(&mut graph, a, "same", 1);
    let other = input(&mut graph, a, "other", 1);
    let out1 = graph.add_output_param(a, "o".to_string(), 1);
    let _out2 = graph.add_output_param(a, "o".to_string(), 1);
    let node = graph.get_node(a);
    assert_eq!(node.get_input("same").ok(), Some(first));
    assert_eq!(node.get_input("other").ok(), Some(other));
    assert_eq!(node.get_output("o").ok(), Some(out1));
}

#[test]
fn port_lookup_by_name_fails_with_the_node_and_the_name() {
    let mut graph = TestGraph::new();
    let a = graph.add_node("a".to_string(), "");
    input(&mut graph, a, "x", 1);
    let node = graph.get_node(a);
    match node.get_input("missing") {
        Err(EguiGraphError::NoParameterNamed(node_id, name)) => {
            assert_eq!(node_id, a);
            assert_eq!(name, "missing");
        }
        _ => panic!("a missing input was found"),
    }
    match node.get_output("x") {
        Err(EguiGraphError::NoParameterNamed(node_id, name)) => {
            assert_eq!(node_id, a);
            assert_eq!(name, "x");
        }
        _ => panic!("a missing output was found"),
    }
}

#[test]
fn any_param_type_gives_the_type_or_the_invalid_id() {
    let mut graph = TestGraph::new();
    let a = graph.add_node("a".to_string(), "");
    let x = input(&mut graph, a, "x", 11);
    let out = graph.add_output_param(a, "out".to_string(), 22);
    assert_eq!(graph.any_param_type(AnyParameterId::Input(x)).ok(), Some(&11));
    assert_eq!(graph.any_param_type(AnyParameterId::Output(out)).ok(), Some(&22));
    let stale = AnyParameterId::Input(InputId { key: x.key + 7 });
    match graph.any_param_type(stale) {
        Err(EguiGraphError::InvalidParameterId(param)) => assert_eq!(param, stale),
        _ => panic!("a missing port has a type"),
    }
    let stale = AnyParameterId::Output(OutputId { key: 5 });
    match graph.any_param_type(stale) {
        Err(EguiGraphError::InvalidParameterId(param)) => assert_eq!(param, stale),
        _ => panic!("a missing port has a type"),
    }
}

#[test]
fn connection_is_replaced_on_the_same_input() {
    let mut graph = TestGraph::new();
    let a = graph.add_node("a".to_string(), "");
    let b = graph.add_node("b".to_string(), "");
    let out1 = graph.add_output_param(a, "x".to_string(), 7);
    let out2 = graph.add_output_param(a, "y".to_string(), 7);
    let target = input(&mut graph, b, "in", 7);
    graph.add_connection(out1, target);
    assert_eq!(graph.connection(target), Some(out1));
    graph.add_connection(out2, target);
    assert_eq!(graph.connection(target), Some(out2));
    assert_eq!(graph.iter_connections(), vec![(target, out2)]);
    graph.add_connection(out2, target);
    assert_eq!(graph.iter_connections(), vec![(target, out2)]);
}

#[test]
fn one_output_may_drive_several_inputs() {
    let mut graph = TestGraph::new();
    let a = graph.add_node("a".to_string(), "");
    let b = graph.add_node("b".to_string(), "");
    let out = graph.add_output_param(a, "x".to_string(), 7);
    let in1 = input(&mut graph, b, "p", 7);
    let in2 = input(&mut graph, b, "q", 7);
    graph.add_connection(out, in2);
    graph.add_connection(out, in1);
    assert_eq!(graph.iter_connections(), vec![(in1, out), (in2, out)]);
}

#[test]
fn remove_connection_returns_what_was_connected() {
    let mut graph = TestGraph::new();
    let a = graph.add_node("a".to_string(), "");
    let out = graph.add_output_param(a, "x".to_string(), 7);
    let target = input(&mut graph, a, "in", 7);
    assert_eq!(graph.remove_connection(target), None);
    graph.add_connection(out, target);
    assert_eq!(graph.remove_connection(target), Some(out));
    assert_eq!(graph.connection(target), None);
    assert_eq!(graph.remove_connection(target), None);
    assert_eq!(graph.remove_connection(InputId { key: 99 }), None);
    assert_eq!(graph.connection(InputId { key: 99 }), None);
}

#[test]
fn remove_input_param_takes_port_and_connection_away() {
    let mut graph = TestGraph::new();
    let a = graph.add_node("a".to_string(), "");
    let out = graph.add_output_param(a, "x".to_string(), 7);
    let b = graph.add_node("b".to_string(), "");
    let p = input(&mut graph, b, "p", 7);
    let q = input(&mut graph, b, "q", 7);
    graph.add_connection(out, p);
    graph.add_connection(out, q);
    graph.remove_input_param(p);
    assert!(graph.try_get_input(p).is_none());
    assert_eq!(graph.get_node(b).input_ids(), vec![q]);
    assert_eq!(graph.iter_connections(), vec![(q, out)]);
}

#[test]
fn remove_output_param_takes_all_its_connections_away() {
    let mut graph = TestGraph::new();
    let a = graph.add_node("a".to_string(), "");
    let out1 = graph.add_output_param(a, "x".to_string(), 7);
    let out2 = graph.add_output_param(a, "y".to_string(), 7);
    let b = graph.add_node("b".to_string(), "");
    let p = input(&mut graph, b, "p", 7);
    let q = input(&mut graph, b, "q", 7);
    let r = input(&mut graph, b, "r", 7);
    graph.add_connection(out1, p);
    graph.add_connection(out2, q);
    graph.add_connection(out1, r);
    graph.remove_output_param(out1);
    assert!(graph.try_get_output(out1).is_none());
    assert_eq!(graph.get_node(a).output_ids(), vec![out2]);
    assert_eq!(graph.iter_connections(), vec![(q, out2)]);
}

#[test]
fn remove_node_reports_exactly_the_connections_that_touched_it() {
    let mut graph = TestGraph::new();
    let a = graph.add_node("a".to_string(), "da");
    let b = graph.add_node("b".to_string(), "db");
    let c = graph.add_node("c".to_string(), "dc");
    let a_out = graph.add_output_param(a, "out".to_string(), 1);
    let b_in = input(&mut graph, b, "in", 1);
    let b_out = graph.add_output_param(b, "out".to_string(), 1);
    let c_in1 = input(&mut graph, c, "in1", 1);
    let c_in2 = input(&mut graph, c, "in2", 1);
    graph.add_connection(a_out, b_in);
    graph.add_connection(b_out, c_in1);
    graph.add_connection(a_out, c_in2);
    let (node, broken) = graph.remove_node(b);
    assert_eq!(node.id, b);
    assert_eq!(node.label, "b");
    assert_eq!(node.user_data, "db");
    assert_eq!(node.input_ids(), vec![b_in]);
    assert_eq!(node.output_ids(), vec![b_out]);
    assert_eq!(broken, vec![(b_in, a_out), (c_in1, b_out)]);
    assert_eq!(graph.iter_connections(), vec![(c_in2, a_out)]);
    assert!(graph.try_get_node(b).is_none());
    assert!(graph.try_get_input(b_in).is_none());
    assert!(graph.try_get_output(b_out).is_none());
    assert_eq!(graph.iter_nodes(), vec![a, c]);
    assert!(graph.try_get_input(c_in1).is_some());
}

#[test]
fn a_removed_identity_is_not_given_again() {
    let mut graph = TestGraph::new();
    let a = graph.add_node("a".to_string(), "");
    let b = graph.add_node("b".to_string(), "");
    let c = graph.add_node("c".to_string(), "");
    graph.remove_node(b);
    let d = graph.add_node("d".to_string(), "");
    assert_ne!(d, b);
    assert_eq!(d.key, 0x3_0000_0002);
    assert!(graph.try_get_node(b).is_none());
    assert_eq!(graph.get_node(d).label, "d");
    assert_eq!(graph.iter_nodes(), vec![a, d, c]);
}

#[test]
fn connections_are_listed_in_the_order_of_the_input_slots() {
    let mut graph = TestGraph::new();
    let a = graph.add_node("a".to_string(), "");
    let out = graph.add_output_param(a, "x".to_string(), 7);
    let p = input(&mut graph, a, "p", 7);
    let q = input(&mut graph, a, "q", 7);
    let r = input(&mut graph, a, "r", 7);
    graph.add_connection(out, r);
    graph.add_connection(out, p);
    graph.add_connection(out, q);
    assert_eq!(graph.iter_connections(), vec![(p, out), (q, out), (r, out)]);
    graph.remove_input_param(q);
    let s = input(&mut graph, a, "s", 7);
    assert_eq!(s.key, 0x3_0000_0002);
    graph.add_connection(out, s);
    assert_eq!(graph.iter_connections(), vec![(p, out), (s, out), (r, out)]);
    assert_eq!(graph.connection(q), None);
}

#[test]
fn replace_input_value_swaps_the_value() {
    let mut graph = TestGraph::new();
    let a = graph.add_node("a".to_string(), "");
    let x = graph.add_input_param(
        a,
        "x".to_string(),
        1,
        5,
        InputParamKind::ConnectionOnly,
        true,
    );
    assert_eq!(graph.replace_input_value(x, 9), 5);
    assert_eq!(graph.get_input(x).value, 9);
    assert_eq!(graph.get_input(x).typ, 1);
    assert_eq!(graph.get_input(x).node, a);
}

#[test]
fn any_parameter_id_tells_the_directions_apart() {
    let input = InputId { key: 3 };
    let output = OutputId { key: 3 };
    assert_eq!(AnyParameterId::from(input), AnyParameterId::Input(input));
    assert_eq!(AnyParameterId::from(output), AnyParameterId::Output(output));
    assert_ne!(AnyParameterId::from(input), AnyParameterId::from(output));
    assert_eq!(AnyParameterId::Input(input).assume_input(), input);
    assert_eq!(AnyParameterId::Output(output).assume_output(), output);
}

#[test]
fn a_connection_is_looked_up_by_its_input_and_gives_its_output() {
    let mut graph = TestGraph::new();
    let a = graph.add_node("a".to_string(), "");
    let _first = graph.add_output_param(a, "x".to_string(), 7);
    let second = graph.add_output_param(a, "y".to_string(), 7);
    let target = input(&mut graph, a, "in", 7);
    assert_ne!(second.key, target.key);
    graph.add_connection(second, target);
    assert_eq!(graph.connection(target), Some(second));
    assert_eq!(graph.iter_connections(), vec![(target, second)]);
    assert_eq!(graph.remove_connection(target), Some(second));
    assert_eq!(graph.iter_inputs(), vec![target]);
    assert_eq!(graph.iter_outputs(), vec![_first, second]);
    assert_eq!(graph.node_count(), 1);
    assert_eq!(graph.input_count(), 1);
    assert_eq!(graph.output_count(), 2);
}

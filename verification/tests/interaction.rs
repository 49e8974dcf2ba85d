use egui_node_graph::editor_ui::NodeResponse;
use egui_node_graph::graph::InputParamKind;
use egui_node_graph::graph_impls::Graph;
use egui_node_graph::id_type::AnyParameterId;
use egui_node_graph::id_type::InputId;
use egui_node_graph::id_type::NodeId;
use egui_node_graph::id_type::OutputId;
use egui_node_graph::interaction::delete_key_responses;
use egui_node_graph::interaction::drop_connection;
use egui_node_graph::interaction::port_responses;
use egui_node_graph::interaction::port_responses_for;
use egui_node_graph::interaction::window_responses;
use egui_node_graph::interaction::PointerState;
use egui_node_graph::ui_state::GraphEditorState;
use egui_node_graph::ui_state::NodeFinder;

type Pos = (i32, i32);
type Response = NodeResponse<(), (), Pos>;
type Editor = GraphEditorState<(), u32, (), Pos>;

const NODE_A: NodeId = NodeId { key: 1 };
const NODE_B: NodeId = NodeId { key: 2 };
const INPUT: InputId = InputId { key: 3 };
const OUTPUT: OutputId = OutputId { key: 4 };

fn from_output() -> Option<(NodeId, AnyParameterId)> {
    Some((NODE_A, AnyParameterId::Output(OUTPUT)))
}

fn from_input() -> Option<(NodeId, AnyParameterId)> {
    Some((NODE_A, AnyParameterId::Input(INPUT)))
}

#[test]
fn a_drag_connects_an_output_to_an_input_of_another_node() {
    let at_input = AnyParameterId::Input(INPUT);
    let at_output = AnyParameterId::Output(OUTPUT);
    assert_eq!(
        drop_connection(NODE_B, at_input, from_output(), true, true, true),
        Some((OUTPUT, INPUT))
    );
    assert_eq!(
        drop_connection(NODE_B, at_output, from_input(), true, true, true),
        Some((OUTPUT, INPUT))
    );
}

#[test]
fn a_drag_never_connects_ports_of_different_types() {
    let at_input = AnyParameterId::Input(INPUT);
    for close_enough in [false, true] {
        for released in [false, true] {
            assert_eq!(
                drop_connection(NODE_B, at_input, from_output(), false, close_enough, released),
                None
            );
        }
    }
}

#[test]
fn a_drag_never_connects_two_ports_of_one_node() {
    for param in [AnyParameterId::Input(INPUT), AnyParameterId::Output(OUTPUT)] {
        for drag in [from_output(), from_input()] {
            assert_eq!(drop_connection(NODE_A, param, drag, true, true, true), None);
        }
    }
}

#[test]
fn a_drag_connects_only_when_released_close_to_the_port() {
    let at_input = AnyParameterId::Input(INPUT);
    assert_eq!(drop_connection(NODE_B, at_input, from_output(), true, false, true), None);
    assert_eq!(drop_connection(NODE_B, at_input, from_output(), true, true, false), None);
    assert_eq!(drop_connection(NODE_B, at_input, None, true, true, true), None);
}

#[test]
fn a_drag_never_connects_two_ports_of_one_direction() {
    let other_input = AnyParameterId::Input(InputId { key: 8 });
    let other_output = AnyParameterId::Output(OutputId { key: 9 });
    assert_eq!(drop_connection(NODE_B, other_input, from_input(), true, true, true), None);
    assert_eq!(drop_connection(NODE_B, other_output, from_output(), true, true, true), None);
}

struct Sample {
    graph: Graph<(), u32, ()>,
    a: NodeId,
    b: NodeId,
    a_out: OutputId,
    a_in: InputId,
    b_in: InputId,
    b_other: InputId,
}

fn sample() -> Sample {
    let mut graph = Graph::new();
    let a = graph.add_node("a".to_string(), ());
    let b = graph.add_node("b".to_string(), ());
    let a_out = graph.add_output_param(a, "out".to_string(), 1);
    let a_in =
        graph.add_input_param(a, "in".to_string(), 1, (), InputParamKind::ConnectionOnly, true);
    let b_in =
        graph.add_input_param(b, "in".to_string(), 1, (), InputParamKind::ConnectionOnly, true);
    let b_other =
        graph.add_input_param(b, "other".to_string(), 2, (), InputParamKind::ConnectionOnly, true);
    Sample { graph, a, b, a_out, a_in, b_in, b_other }
}

#[test]
fn a_port_reports_the_start_of_a_drag() {
    let Sample { graph, a, b, a_out, b_in, .. } = sample();
    let mut responses: Vec<Response> = Vec::new();
    port_responses(&graph, b, AnyParameterId::Input(b_in), None, true, true, false, &mut responses);
    port_responses(
        &graph,
        a,
        AnyParameterId::Output(a_out),
        None,
        true,
        true,
        false,
        &mut responses,
    );
    port_responses(
        &graph,
        a,
        AnyParameterId::Output(a_out),
        None,
        false,
        true,
        true,
        &mut responses,
    );
    assert_eq!(responses.len(), 2);
    assert!(matches!(
        responses[0],
        NodeResponse::ConnectEventStarted(n, AnyParameterId::Input(p)) if n == b && p == b_in
    ));
    assert!(matches!(
        responses[1],
        NodeResponse::ConnectEventStarted(n, AnyParameterId::Output(p)) if n == a && p == a_out
    ));
}

#[test]
fn a_connected_input_reports_the_break_of_its_connection() {
    let Sample { mut graph, b, a_out, b_in, .. } = sample();
    graph.add_connection(a_out, b_in);
    let mut responses: Vec<Response> = Vec::new();
    port_responses(
        &graph,
        b,
        AnyParameterId::Input(b_in),
        None,
        true,
        false,
        false,
        &mut responses,
    );
    assert_eq!(responses.len(), 1);
    assert!(matches!(
        responses[0],
        NodeResponse::DisconnectEvent { input, output } if input == b_in && output == a_out
    ));
}

#[test]
fn a_port_reports_the_connection_of_a_drag_that_ends_on_it() {
    let Sample { graph, a, b, a_out, b_in, .. } = sample();
    let drag = Some((a, AnyParameterId::Output(a_out)));
    let mut responses: Vec<Response> = Vec::new();
    port_responses(&graph, b, AnyParameterId::Input(b_in), drag, false, true, true, &mut responses);
    assert_eq!(responses.len(), 1);
    assert!(matches!(
        responses[0],
        NodeResponse::ConnectEventEnded { input, output } if input == b_in && output == a_out
    ));
    let drag = Some((b, AnyParameterId::Input(b_in)));
    port_responses(
        &graph,
        a,
        AnyParameterId::Output(a_out),
        drag,
        false,
        true,
        true,
        &mut responses,
    );
    assert_eq!(responses.len(), 2);
    assert!(matches!(
        responses[1],
        NodeResponse::ConnectEventEnded { input, output } if input == b_in && output == a_out
    ));
}

#[test]
fn a_port_of_another_type_or_of_the_same_node_reports_no_connection() {
    let Sample { graph, a, b, a_out, a_in, b_in, b_other } = sample();
    let drag = Some((a, AnyParameterId::Output(a_out)));
    let mut responses: Vec<Response> = Vec::new();
    port_responses(
        &graph,
        b,
        AnyParameterId::Input(b_other),
        drag,
        false,
        true,
        true,
        &mut responses,
    );
    port_responses(&graph, a, AnyParameterId::Input(a_in), drag, false, true, true, &mut responses);
    port_responses(
        &graph,
        b,
        AnyParameterId::Input(b_in),
        drag,
        false,
        false,
        true,
        &mut responses,
    );
    port_responses(
        &graph,
        b,
        AnyParameterId::Input(b_in),
        drag,
        false,
        true,
        false,
        &mut responses,
    );
    let drag = Some((a, AnyParameterId::Input(a_in)));
    port_responses(&graph, b, AnyParameterId::Input(b_in), drag, false, true, true, &mut responses);
    assert!(responses.is_empty());
    port_responses_for(
        &graph,
        b,
        AnyParameterId::Input(b_other),
        Some((a, AnyParameterId::Output(a_out))),
        true,
        false,
        true,
        true,
        &mut responses,
    );
    assert_eq!(responses.len(), 1);
    assert!(matches!(responses[0], NodeResponse::ConnectEventStarted(..)));
}

#[test]
fn a_window_reports_delete_move_and_select() {
    let mut responses: Vec<Response> = Vec::new();
    window_responses(NODE_A, false, None, false, &mut responses);
    assert!(responses.is_empty());
    window_responses(NODE_A, false, None, true, &mut responses);
    assert_eq!(responses.len(), 2);
    assert!(matches!(responses[0], NodeResponse::SelectNode(n) if n == NODE_A));
    assert!(matches!(responses[1], NodeResponse::RaiseNode(n) if n == NODE_A));

    let mut responses: Vec<Response> = Vec::new();
    window_responses(NODE_A, true, Some((1, 2)), true, &mut responses);
    assert_eq!(responses.len(), 3);
    assert!(matches!(responses[0], NodeResponse::DeleteNodeUi(n) if n == NODE_A));
    assert!(matches!(
        responses[1],
        NodeResponse::MoveNode { node, drag_delta: (1, 2) } if node == NODE_A
    ));
    assert!(matches!(responses[2], NodeResponse::RaiseNode(n) if n == NODE_A));

    // A click selects only where nothing else was reported for the node.
    let mut responses: Vec<Response> = vec![NodeResponse::User(())];
    window_responses(NODE_A, false, None, true, &mut responses);
    assert_eq!(responses.len(), 1);
}

#[test]
fn only_a_constant_has_no_port() {
    assert!(InputParamKind::ConnectionOnly.has_port());
    assert!(!InputParamKind::ConstantOnly.has_port());
    assert!(InputParamKind::ConnectionOrConstant.has_port());
}

#[test]
fn the_delete_key_asks_for_the_selected_nodes_that_may_go() {
    let c = NodeId { key: 5 };
    let mut responses: Vec<Response> = vec![NodeResponse::User(())];
    delete_key_responses(&vec![NODE_A, NODE_B, c], &vec![true, false, true], &mut responses);
    assert_eq!(responses.len(), 3);
    assert!(matches!(responses[1], NodeResponse::DeleteNodeUi(n) if n == NODE_A));
    assert!(matches!(responses[2], NodeResponse::DeleteNodeUi(n) if n == c));
    delete_key_responses(&vec![], &vec![], &mut responses);
    assert_eq!(responses.len(), 3);
}

fn idle(at: Pos) -> PointerState<Pos> {
    PointerState {
        cursor_pos: at,
        clicked_on_background: false,
        drag_started_on_background: false,
        drag_released_on_background: false,
        shift_pressed: false,
        primary_down: false,
        primary_released: false,
        secondary_released: false,
        any_released: false,
        escape_pressed: false,
        cursor_in_editor: true,
        cursor_in_finder: false,
    }
}

fn editor_with_selection() -> (Editor, NodeId) {
    let mut editor = Editor::new();
    let mut responses: Vec<Response> = Vec::new();
    let a = editor.create_node("a".to_string(), (), (0, 0), &mut responses);
    editor.select(a, false);
    (editor, a)
}

#[test]
fn any_release_ends_the_drag() {
    let (mut editor, a) = editor_with_selection();
    let drag = Some((a, AnyParameterId::Output(OUTPUT)));
    editor.connection_in_progress = drag;
    editor.finish_pass(&idle((0, 0)));
    assert_eq!(editor.connection_in_progress, drag);
    editor.graph_editor_interaction(&PointerState { any_released: true, ..idle((0, 0)) });
    assert_eq!(editor.connection_in_progress, drag);
    editor.finish_pass(&PointerState { any_released: true, ..idle((0, 0)) });
    assert_eq!(editor.connection_in_progress, None);
    assert_eq!(editor.selected_nodes, vec![a]);
}

#[test]
fn the_palette_opens_at_the_pointer_and_closes() {
    let (mut editor, _) = editor_with_selection();
    let open = PointerState { secondary_released: true, ..idle((7, 8)) };
    editor.finish_pass(&PointerState { cursor_in_editor: false, ..open });
    assert!(editor.node_finder.is_none());
    editor.finish_pass(&PointerState { cursor_in_finder: true, ..open });
    assert!(editor.node_finder.is_none());
    editor.finish_pass(&open);
    assert_eq!(editor.node_finder.map(|finder| finder.position), Some(Some((7, 8))));
    editor.finish_pass(&idle((9, 9)));
    assert!(editor.node_finder.is_some());
    editor.finish_pass(&PointerState { escape_pressed: true, ..idle((9, 9)) });
    assert!(editor.node_finder.is_none());
    // From a panel, the palette counts as part of the editor.
    editor.graph_editor_interaction(&PointerState { cursor_in_finder: true, ..open });
    assert_eq!(editor.node_finder.map(|finder| finder.position), Some(Some((7, 8))));
    editor.graph_editor_interaction(&PointerState { escape_pressed: true, ..open });
    assert!(editor.node_finder.is_none());
    editor.node_finder = Some(NodeFinder::new_at((1, 1)));
    editor.graph_editor_interaction(&PointerState { clicked_on_background: true, ..open });
    assert!(editor.node_finder.is_none());
}

#[test]
fn a_click_on_the_background_clears_the_selection_unless_adding() {
    let (mut editor, a) = editor_with_selection();
    editor.node_finder = Some(NodeFinder::new_at((1, 1)));
    let click = PointerState { clicked_on_background: true, ..idle((0, 0)) };
    editor.finish_pass(&PointerState { shift_pressed: true, ..click });
    assert_eq!(editor.selected_nodes, vec![a]);
    assert!(editor.node_finder.is_none());
    editor.finish_pass(&click);
    assert!(editor.selected_nodes.is_empty());
    assert!(editor.is_consistent());
}

#[test]
fn a_drag_on_the_background_begins_and_ends_a_box_selection() {
    let (mut editor, _) = editor_with_selection();
    let begin = PointerState { drag_started_on_background: true, ..idle((4, 5)) };
    editor.finish_pass(&begin);
    assert_eq!(editor.ongoing_box_selection, None);
    editor.finish_pass(&PointerState { primary_down: true, ..begin });
    assert_eq!(editor.ongoing_box_selection, Some((4, 5)));
    editor.finish_pass(&idle((6, 6)));
    assert_eq!(editor.ongoing_box_selection, Some((4, 5)));
    editor.finish_pass(&PointerState { drag_released_on_background: true, ..idle((6, 6)) });
    assert_eq!(editor.ongoing_box_selection, None);
    editor.graph_editor_interaction(&PointerState { primary_down: true, ..begin });
    assert_eq!(editor.ongoing_box_selection, Some((4, 5)));
    editor.graph_editor_interaction(&PointerState { primary_released: true, ..idle((6, 6)) });
    assert_eq!(editor.ongoing_box_selection, None);
    // A release in the pass in which the drag began ends it at once.
    editor.finish_pass(&PointerState { primary_down: true, primary_released: true, ..begin });
    assert_eq!(editor.ongoing_box_selection, None);
}

#[test]
fn a_drag_can_end_at_ports_of_other_nodes_of_the_other_direction_and_the_same_type() {
    let Sample { mut graph, a, b, a_out, a_in, b_in, b_other } = sample();
    let other_out = graph.add_output_param(a, "other".to_string(), 2);
    let b_out = graph.add_output_param(b, "out".to_string(), 1);
    let c = graph.add_node("c".to_string(), ());
    let c_in =
        graph.add_input_param(c, "in".to_string(), 1, (), InputParamKind::ConstantOnly, true);
    let from = egui_node_graph::interaction::compatible_ports;
    // Not the input of the node itself, of the same type though it is, nor
    // the input of c, which is a constant only.
    assert_eq!(from(&graph, AnyParameterId::Output(a_out)), vec![AnyParameterId::Input(b_in)]);
    assert_eq!(
        from(&graph, AnyParameterId::Output(other_out)),
        vec![AnyParameterId::Input(b_other)]
    );
    assert_eq!(
        from(&graph, AnyParameterId::Input(b_other)),
        vec![AnyParameterId::Output(other_out)]
    );
    assert_eq!(from(&graph, AnyParameterId::Input(a_in)), vec![AnyParameterId::Output(b_out)]);
    assert_eq!(
        from(&graph, AnyParameterId::Input(c_in)),
        vec![AnyParameterId::Output(a_out), AnyParameterId::Output(b_out)]
    );
    graph.remove_output_param(a_out);
    assert_eq!(from(&graph, AnyParameterId::Input(b_in)), vec![]);
    assert_eq!(graph.any_param_node(AnyParameterId::Input(b_in)).ok(), Some(b));
    assert_eq!(graph.any_param_node(AnyParameterId::Output(other_out)).ok(), Some(a));
    assert!(graph.any_param_node(AnyParameterId::Output(a_out)).is_err());
}

use egui_node_graph::editor_ui::GraphResponse;
use egui_node_graph::editor_ui::NodeResponse;
use egui_node_graph::graph::InputParamKind;
use egui_node_graph::id_type::AnyParameterId;
use egui_node_graph::id_type::InputId;
use egui_node_graph::id_type::NodeId;
use egui_node_graph::id_type::OutputId;
use egui_node_graph::ui_state::has_no_repeats;
use egui_node_graph::ui_state::position_of;
use egui_node_graph::ui_state::remove_node_id;
use egui_node_graph::ui_state::GraphEditorState;

type Pos = (i32, i32);
type Editor = GraphEditorState<&'static str, u32, i64, Pos>;
type Response = NodeResponse<&'static str, &'static str, Pos>;

fn node(editor: &mut Editor, label: &str, at: Pos) -> NodeId {
    let mut responses: Vec<Response> = Vec::new();
    editor.create_node(label.to_string(), "data", at, &mut responses)
}

fn input(editor: &mut Editor, node: NodeId) -> InputId {
    editor.graph.add_input_param(
        node,
        "in".to_string(),
        1,
        0,
        InputParamKind::ConnectionOrConstant,
        true,
    )
}

fn output(editor: &mut Editor, node: NodeId) -> OutputId {
    editor.graph.add_output_param(node, "out".to_string(), 1)
}

#[test]
fn a_new_editor_is_empty_and_consistent() {
    let editor = Editor::new();
    assert!(editor.is_consistent());
    assert!(editor.node_order.is_empty());
    assert!(editor.selected_nodes.is_empty());
    assert!(editor.connection_in_progress.is_none());
    assert!(editor.ongoing_box_selection.is_none());
    assert!(editor.node_finder.is_none());
    let response: GraphResponse<(), (), Pos> = GraphResponse::default();
    assert!(response.node_responses.is_empty());
    assert!(!response.cursor_in_editor);
    assert!(!response.cursor_in_finder);
}

#[test]
fn create_node_places_reports_and_closes_the_palette() {
    let mut editor = Editor::new();
    editor.node_finder = Some(egui_node_graph::ui_state::NodeFinder::new_at((1, 1)));
    let mut responses: Vec<Response> = Vec::new();
    let a = editor.create_node("a".to_string(), "da", (3, 4), &mut responses);
    let b = editor.create_node("b".to_string(), "db", (5, 6), &mut responses);
    assert_eq!(editor.node_order, vec![a, b]);
    assert_eq!(editor.node_positions.get(&a.key), Some(&(3, 4)));
    assert_eq!(editor.node_positions.get(&b.key), Some(&(5, 6)));
    assert!(editor.node_finder.is_none());
    assert_eq!(editor.graph.get_node(b).label, "b");
    assert_eq!(editor.graph.get_node(b).user_data, "db");
    assert_eq!(responses.len(), 2);
    assert!(matches!(responses[0], NodeResponse::CreatedNode(n) if n == a));
    assert!(matches!(responses[1], NodeResponse::CreatedNode(n) if n == b));
    assert!(editor.is_consistent());
}

#[test]
fn the_drawing_order_is_the_set_of_nodes_through_adds_and_deletes() {
    let mut editor = Editor::new();
    let a = node(&mut editor, "a", (0, 0));
    let b = node(&mut editor, "b", (0, 0));
    let c = node(&mut editor, "c", (0, 0));
    assert!(editor.is_consistent());
    let done = editor.resolve_responses(vec![Response::DeleteNodeUi(b)], false);
    assert_eq!(done.resolved, 1);
    assert_eq!(editor.node_order, vec![a, c]);
    assert_eq!(editor.graph.iter_nodes(), vec![a, c]);
    assert!(editor.is_consistent());
    let d = node(&mut editor, "d", (0, 0));
    assert_eq!(editor.node_order, vec![a, c, d]);
    assert_eq!(editor.graph.iter_nodes(), vec![a, d, c]);
    assert!(editor.is_consistent());
    editor.resolve_responses(
        vec![Response::RaiseNode(a), Response::DeleteNodeUi(c), Response::DeleteNodeUi(a)],
        false,
    );
    assert_eq!(editor.node_order, vec![d]);
    assert!(editor.is_consistent());
}

#[test]
fn is_consistent_finds_what_is_out_of_order() {
    let mut editor = Editor::new();
    let a = node(&mut editor, "a", (0, 0));
    let b = node(&mut editor, "b", (0, 0));
    let mut twice = editor.clone();
    twice.node_order = vec![a, a];
    assert!(!twice.is_consistent());
    let mut short = editor.clone();
    short.node_order = vec![b];
    assert!(!short.is_consistent());
    let mut stranger = editor.clone();
    stranger.node_order = vec![a, NodeId { key: 77 }];
    assert!(!stranger.is_consistent());
    let mut selected = editor.clone();
    selected.selected_nodes = vec![NodeId { key: 77 }];
    assert!(!selected.is_consistent());
    let mut selected_twice = editor.clone();
    selected_twice.selected_nodes = vec![b, b];
    assert!(!selected_twice.is_consistent());
    let mut unplaced = editor.clone();
    unplaced.node_positions.remove(&a.key);
    assert!(!unplaced.is_consistent());
    let mut misplaced = editor.clone();
    misplaced.node_positions.remove(&a.key);
    misplaced.node_positions.insert(77, (0, 0));
    assert!(!misplaced.is_consistent());
    let mut extra = editor.clone();
    extra.graph.add_node("x".to_string(), "");
    assert!(!extra.is_consistent());
    editor.selected_nodes = vec![b, a];
    editor.node_order = vec![b, a];
    assert!(editor.is_consistent());
}

#[test]
fn select_replaces_or_adds() {
    let mut editor = Editor::new();
    let a = node(&mut editor, "a", (0, 0));
    let b = node(&mut editor, "b", (0, 0));
    let c = node(&mut editor, "c", (0, 0));
    editor.select(a, false);
    assert_eq!(editor.selected_nodes, vec![a]);
    editor.select(b, true);
    assert_eq!(editor.selected_nodes, vec![a, b]);
    editor.select(a, true);
    assert_eq!(editor.selected_nodes, vec![a, b]);
    editor.select(c, false);
    assert_eq!(editor.selected_nodes, vec![c]);
    editor.deselect_all();
    assert!(editor.selected_nodes.is_empty());
    editor.resolve_responses(vec![Response::SelectNode(a), Response::SelectNode(b)], false);
    assert_eq!(editor.selected_nodes, vec![b]);
    editor.resolve_responses(vec![Response::SelectNode(a), Response::SelectNode(c)], true);
    assert_eq!(editor.selected_nodes, vec![b, a, c]);
}

#[test]
fn box_select_takes_the_hits_that_are_nodes() {
    let mut editor = Editor::new();
    let a = node(&mut editor, "a", (0, 0));
    let b = node(&mut editor, "b", (0, 0));
    let c = node(&mut editor, "c", (0, 0));
    editor.select(a, false);
    editor.box_select(&vec![c, NodeId { key: 9 }, a, c], true);
    assert_eq!(editor.selected_nodes, vec![a, c]);
    editor.box_select(&vec![b], false);
    assert_eq!(editor.selected_nodes, vec![b]);
    editor.box_select(&vec![], true);
    assert_eq!(editor.selected_nodes, vec![b]);
    editor.box_select(&vec![], false);
    assert!(editor.selected_nodes.is_empty());
    assert!(editor.is_consistent());
}

#[test]
fn raise_moves_the_node_to_the_end_of_the_order() {
    let mut editor = Editor::new();
    let a = node(&mut editor, "a", (0, 0));
    let b = node(&mut editor, "b", (0, 0));
    let c = node(&mut editor, "c", (0, 0));
    editor.raise(a);
    assert_eq!(editor.node_order, vec![b, c, a]);
    editor.raise(a);
    assert_eq!(editor.node_order, vec![b, c, a]);
    editor.raise(c);
    assert_eq!(editor.node_order, vec![b, a, c]);
    assert!(editor.is_consistent());
}

#[test]
fn node_lists_are_searched_and_thinned() {
    let a = NodeId { key: 1 };
    let b = NodeId { key: 2 };
    let c = NodeId { key: 3 };
    let mut list = vec![a, b, c];
    assert_eq!(position_of(&list, b), Some(1));
    assert_eq!(position_of(&list, NodeId { key: 4 }), None);
    assert!(has_no_repeats(&list));
    assert!(!has_no_repeats(&vec![a, b, a]));
    assert!(has_no_repeats(&vec![]));
    remove_node_id(&mut list, b);
    assert_eq!(list, vec![a, c]);
    remove_node_id(&mut list, b);
    assert_eq!(list, vec![a, c]);
}

#[test]
fn deleting_a_connected_node_reports_disconnects_before_the_node() {
    let mut editor = Editor::new();
    let a = node(&mut editor, "a", (1, 1));
    let b = node(&mut editor, "b", (2, 2));
    let c = node(&mut editor, "c", (3, 3));
    let a_out = output(&mut editor, a);
    let b_in = input(&mut editor, b);
    let b_out = output(&mut editor, b);
    let c_in = input(&mut editor, c);
    editor.graph.add_connection(a_out, b_in);
    editor.graph.add_connection(b_out, c_in);
    editor.select(b, false);
    editor.select(c, true);
    let responses = vec![
        Response::User("first"),
        Response::DeleteNodeUi(b),
        Response::RaiseNode(a),
        Response::User("last"),
    ];
    let done = editor.resolve_responses(responses, false);
    assert_eq!(done.resolved, 4);
    let events = done.node_responses;
    assert_eq!(events.len(), 7);
    assert!(matches!(events[0], NodeResponse::User("first")));
    assert!(matches!(events[1], NodeResponse::DeleteNodeUi(n) if n == b));
    assert!(matches!(events[2], NodeResponse::RaiseNode(n) if n == a));
    assert!(matches!(events[3], NodeResponse::User("last")));
    assert!(matches!(
        events[4],
        NodeResponse::DisconnectEvent { input, output } if input == b_in && output == a_out
    ));
    assert!(matches!(
        events[5],
        NodeResponse::DisconnectEvent { input, output } if input == c_in && output == b_out
    ));
    match &events[6] {
        NodeResponse::DeleteNodeFull { node_id, node } => {
            assert_eq!(*node_id, b);
            assert_eq!(node.id, b);
            assert_eq!(node.label, "b");
            assert_eq!(node.user_data, "data");
            assert_eq!(node.input_ids(), vec![b_in]);
            assert_eq!(node.output_ids(), vec![b_out]);
        }
        _ => panic!("the node was not reported last"),
    }
    assert!(done.moves.is_empty());
    assert_eq!(editor.node_order, vec![c, a]);
    assert_eq!(editor.selected_nodes, vec![c]);
    assert!(!editor.node_positions.contains_key(&b.key));
    assert_eq!(editor.node_positions.len(), 2);
    assert!(editor.graph.iter_connections().is_empty());
    assert!(editor.is_consistent());
}

#[test]
fn two_deletions_are_reported_in_the_order_of_the_requests() {
    let mut editor = Editor::new();
    let a = node(&mut editor, "a", (1, 1));
    let b = node(&mut editor, "b", (2, 2));
    let a_out = output(&mut editor, a);
    let b_in = input(&mut editor, b);
    editor.graph.add_connection(a_out, b_in);
    let done = editor
        .resolve_responses(vec![Response::DeleteNodeUi(b), Response::DeleteNodeUi(a)], false);
    let events = done.node_responses;
    assert_eq!(events.len(), 5);
    assert!(matches!(
        events[2],
        NodeResponse::DisconnectEvent { input, output } if input == b_in && output == a_out
    ));
    assert!(matches!(events[3], NodeResponse::DeleteNodeFull { node_id, .. } if node_id == b));
    assert!(matches!(events[4], NodeResponse::DeleteNodeFull { node_id, .. } if node_id == a));
    assert!(editor.node_order.is_empty());
    assert!(editor.is_consistent());
}

#[test]
fn connect_and_disconnect_events_change_the_graph_and_the_drag() {
    let mut editor = Editor::new();
    let a = node(&mut editor, "a", (1, 1));
    let b = node(&mut editor, "b", (2, 2));
    let a_out = output(&mut editor, a);
    let b_in = input(&mut editor, b);
    let responses = vec![
        Response::ConnectEventStarted(b, AnyParameterId::Input(b_in)),
        Response::ConnectEventEnded { output: a_out, input: b_in },
    ];
    let done = editor.resolve_responses(responses, false);
    assert_eq!(done.node_responses.len(), 2);
    assert_eq!(editor.graph.connection(b_in), Some(a_out));
    assert_eq!(editor.connection_in_progress, Some((b, AnyParameterId::Input(b_in))));
    // Pressing on the connected input breaks the connection, and the drag
    // goes on from the output at the far end.
    editor.connection_in_progress = None;
    let done = editor
        .resolve_responses(vec![Response::DisconnectEvent { output: a_out, input: b_in }], false);
    assert_eq!(done.node_responses.len(), 1);
    assert_eq!(editor.graph.connection(b_in), None);
    assert_eq!(editor.connection_in_progress, Some((a, AnyParameterId::Output(a_out))));
}

#[test]
fn a_move_takes_the_rest_of_the_selection_along() {
    let mut editor = Editor::new();
    let a = node(&mut editor, "a", (1, 1));
    let b = node(&mut editor, "b", (2, 2));
    let c = node(&mut editor, "c", (3, 3));
    let drag = Response::MoveNode { node: b, drag_delta: (5, -5) };
    // Nothing selected: the node alone.
    let done = editor.resolve_responses(vec![drag.clone()], false);
    assert_eq!(done.moves, vec![(b, (5, -5))]);
    // The node is the one selected: alone.
    editor.select(b, false);
    let done = editor.resolve_responses(vec![drag.clone()], false);
    assert_eq!(done.moves, vec![(b, (5, -5))]);
    // Others are selected, the node is not: alone.
    editor.select(a, false);
    editor.select(c, true);
    let done = editor.resolve_responses(vec![drag.clone()], false);
    assert_eq!(done.moves, vec![(b, (5, -5))]);
    // The node is one of several selected: all of them, the node first.
    editor.select(b, true);
    let done = editor.resolve_responses(vec![drag.clone(), Response::RaiseNode(b)], false);
    assert_eq!(done.moves, vec![(b, (5, -5)), (a, (5, -5)), (c, (5, -5))]);
    assert_eq!(editor.node_order, vec![a, c, b]);
    // Positions are for the host to change.
    assert_eq!(editor.node_positions.get(&b.key), Some(&(2, 2)));
}

#[test]
fn resolving_stops_before_a_response_that_names_what_is_gone() {
    let mut editor = Editor::new();
    let a = node(&mut editor, "a", (1, 1));
    let b = node(&mut editor, "b", (2, 2));
    let responses = vec![
        Response::SelectNode(a),
        Response::DeleteNodeUi(b),
        Response::RaiseNode(b),
        Response::SelectNode(a),
    ];
    assert!(editor.admits(&responses[2]));
    let done = editor.try_resolve_responses(responses, true);
    assert_eq!(done.resolved, 2);
    assert_eq!(done.node_responses.len(), 5);
    assert!(matches!(
        done.node_responses[4],
        NodeResponse::DeleteNodeFull { node_id, .. } if node_id == b
    ));
    assert_eq!(editor.node_order, vec![a]);
    assert_eq!(editor.selected_nodes, vec![a]);
    assert!(editor.is_consistent());
}

#[test]
fn the_state_admits_what_it_can_resolve() {
    let mut editor = Editor::new();
    let a = node(&mut editor, "a", (1, 1));
    let a_out = output(&mut editor, a);
    let a_in = input(&mut editor, a);
    let gone = NodeId { key: 99 };
    let no_input = InputId { key: 99 };
    let no_output = OutputId { key: 99 };
    assert!(editor.admits(&Response::ConnectEventStarted(gone, AnyParameterId::Input(no_input))));
    assert!(editor.admits(&Response::ConnectEventEnded { output: a_out, input: a_in }));
    assert!(!editor.admits(&Response::ConnectEventEnded { output: no_output, input: a_in }));
    assert!(!editor.admits(&Response::ConnectEventEnded { output: a_out, input: no_input }));
    assert!(editor.admits(&Response::CreatedNode(gone)));
    assert!(editor.admits(&Response::SelectNode(a)));
    assert!(!editor.admits(&Response::SelectNode(gone)));
    assert!(editor.admits(&Response::DeleteNodeUi(a)));
    assert!(!editor.admits(&Response::DeleteNodeUi(gone)));
    assert!(editor.admits(&Response::DisconnectEvent { output: a_out, input: no_input }));
    assert!(!editor.admits(&Response::DisconnectEvent { output: no_output, input: a_in }));
    assert!(editor.admits(&Response::RaiseNode(a)));
    assert!(!editor.admits(&Response::RaiseNode(gone)));
    assert!(editor.admits(&Response::MoveNode { node: a, drag_delta: (0, 0) }));
    assert!(!editor.admits(&Response::MoveNode { node: gone, drag_delta: (0, 0) }));
    assert!(editor.admits(&Response::User("x")));
    let (removed, _) = editor.clone().graph.remove_node(a);
    assert!(!editor.admits(&Response::DeleteNodeFull { node_id: a, node: removed }));
}

#[test]
fn apply_response_resolves_one_response() {
    let mut editor = Editor::new();
    let a = node(&mut editor, "a", (1, 1));
    let b = node(&mut editor, "b", (1, 1));
    let mut derived: Vec<Response> = vec![Response::User("kept")];
    let mut moves: Vec<(NodeId, Pos)> = vec![(a, (1, 1))];
    editor.apply_response(&Response::SelectNode(b), false, &mut derived, &mut moves);
    assert_eq!(editor.selected_nodes, vec![b]);
    assert_eq!(derived.len(), 1);
    assert_eq!(moves.len(), 1);
    editor.apply_response(
        &Response::MoveNode { node: b, drag_delta: (2, 3) },
        false,
        &mut derived,
        &mut moves,
    );
    assert_eq!(moves, vec![(a, (1, 1)), (b, (2, 3))]);
    editor.apply_response(&Response::DeleteNodeUi(b), false, &mut derived, &mut moves);
    assert_eq!(derived.len(), 2);
    assert!(matches!(derived[0], NodeResponse::User("kept")));
    assert!(matches!(derived[1], NodeResponse::DeleteNodeFull { node_id, .. } if node_id == b));
    assert!(editor.selected_nodes.is_empty());
}

#[test]
fn merging_editors_selects_and_places_the_copies() {
    let mut other = Editor::new();
    let x = node(&mut other, "x", (10, 10));
    let y = node(&mut other, "y", (20, 20));
    let x_out = output(&mut other, x);
    let y_in = input(&mut other, y);
    other.graph.add_connection(x_out, y_in);
    other.raise(x);
    let mut editor = Editor::new();
    let a = node(&mut editor, "a", (1, 1));
    editor.select(a, false);
    let pairs = editor.merge(&other);
    assert_eq!(pairs.len(), 2);
    assert_eq!((pairs[0].0, pairs[1].0), (x, y));
    let (x2, y2) = (pairs[0].1, pairs[1].1);
    assert_eq!(editor.node_order, vec![a, x2, y2]);
    assert_eq!(editor.selected_nodes, vec![x2, y2]);
    assert_eq!(editor.node_positions.get(&a.key), Some(&(1, 1)));
    assert_eq!(editor.node_positions.get(&x2.key), Some(&(10, 10)));
    assert_eq!(editor.node_positions.get(&y2.key), Some(&(20, 20)));
    assert_eq!(editor.graph.iter_connections().len(), 1);
    assert!(editor.is_consistent());
    assert_eq!(other.node_order, vec![y, x]);
}

#[test]
fn from_selected_keeps_the_selected_part() {
    let mut editor = Editor::new();
    let a = node(&mut editor, "a", (1, 1));
    let b = node(&mut editor, "b", (2, 2));
    let c = node(&mut editor, "c", (3, 3));
    let a_out = output(&mut editor, a);
    let b_in = input(&mut editor, b);
    let c_in = input(&mut editor, c);
    editor.graph.add_connection(a_out, b_in);
    editor.graph.add_connection(a_out, c_in);
    editor.raise(a);
    editor.select(a, false);
    editor.select(c, true);
    editor.connection_in_progress = Some((a, AnyParameterId::Output(a_out)));
    editor.ongoing_box_selection = Some((0, 0));
    let part = editor.from_selected();
    assert_eq!(part.graph.iter_nodes(), vec![a, c]);
    assert_eq!(part.node_order, vec![c, a]);
    assert_eq!(part.graph.iter_connections(), vec![(c_in, a_out)]);
    assert_eq!(part.node_positions.len(), 2);
    assert_eq!(part.node_positions.get(&c.key), Some(&(3, 3)));
    assert!(part.selected_nodes.is_empty());
    assert!(part.connection_in_progress.is_none());
    assert!(part.ongoing_box_selection.is_none());
    assert!(part.node_finder.is_none());
    assert!(part.is_consistent());
    assert_eq!(editor.node_order, vec![b, c, a]);
    assert_eq!(editor.selected_nodes, vec![a, c]);
}

fn idle(at: Pos) -> egui_node_graph::interaction::PointerState<Pos> {
    egui_node_graph::interaction::PointerState {
        cursor_pos: at,
        clicked_on_background: false,
        drag_started_on_background: false,
        drag_released_on_background: false,
        shift_pressed: false,
        primary_down: false,
        primary_released: false,
        secondary_released: false,
        any_released: false,
        escape_pressed: false,
        cursor_in_editor: true,
        cursor_in_finder: false,
    }
}

#[test]
fn a_pass_resolves_then_box_selects_then_attends_to_the_pointer() {
    let mut editor = Editor::new();
    let a = node(&mut editor, "a", (1, 1));
    let b = node(&mut editor, "b", (2, 2));
    let c = node(&mut editor, "c", (3, 3));
    editor.ongoing_box_selection = Some((0, 0));
    editor.connection_in_progress = Some((a, AnyParameterId::Input(InputId { key: 1 })));
    let mut input = idle((9, 9));
    input.any_released = true;
    input.secondary_released = true;
    input.cursor_in_finder = true;
    let responses = vec![Response::SelectNode(a), Response::DeleteNodeUi(b)];
    // The box hits b, which the pass deletes, and c.
    let outcome = editor.resolve_pass(responses, &vec![b, c], &input);
    assert_eq!(outcome.resolved, 2);
    assert_eq!(outcome.response.node_responses.len(), 3);
    assert!(outcome.response.cursor_in_editor);
    assert!(outcome.response.cursor_in_finder);
    assert!(!outcome.palette_opened);
    assert!(outcome.moves.is_empty());
    // The box selection replaces what the responses selected.
    assert_eq!(editor.selected_nodes, vec![c]);
    assert_eq!(editor.node_order, vec![a, c]);
    assert_eq!(editor.connection_in_progress, None);
    assert_eq!(editor.ongoing_box_selection, Some((0, 0)));
    assert!(editor.node_finder.is_none());
    assert!(editor.is_consistent());

    // Without a box selection the hits are not looked at, and the palette
    // opens where the pointer is over the editor alone.
    editor.ongoing_box_selection = None;
    input.cursor_in_finder = false;
    input.shift_pressed = true;
    let outcome = editor.resolve_pass(vec![Response::SelectNode(a)], &vec![c], &input);
    assert!(outcome.palette_opened);
    assert_eq!(editor.selected_nodes, vec![c, a]);
    assert_eq!(editor.node_finder.map(|finder| finder.position), Some(Some((9, 9))));
}

#[test]
fn a_pass_stops_before_a_response_that_names_what_is_gone() {
    let mut editor = Editor::new();
    let a = node(&mut editor, "a", (1, 1));
    editor.ongoing_box_selection = Some((0, 0));
    let mut input = idle((9, 9));
    input.secondary_released = true;
    input.primary_released = true;
    let responses = vec![Response::RaiseNode(a), Response::SelectNode(NodeId { key: 77 })];
    let outcome = editor.resolve_pass(responses, &vec![a], &input);
    assert_eq!(outcome.resolved, 1);
    assert_eq!(outcome.response.node_responses.len(), 2);
    assert!(!outcome.palette_opened);
    assert!(editor.selected_nodes.is_empty());
    assert_eq!(editor.ongoing_box_selection, Some((0, 0)));
    assert!(editor.node_finder.is_none());
}

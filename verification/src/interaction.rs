//! What the editor reports for what the pointer does: at a port, on a
//! node's window, with the delete key, and on the background.
//!
//! The host says what the pointer did; these functions decide what that
//! means. None of them changes the graph: a drag that ends on a port is
//! reported, and connects only when the report is resolved.

use crate::arena::slot_index;
use crate::editor_ui::NodeResponse;
use crate::graph::GraphView;
use crate::graph::InputParamKind;
use crate::graph_impls::Graph;
use crate::id_type::AnyParameterId;
use crate::id_type::InputId;
use crate::id_type::NodeId;
use crate::id_type::OutputId;
use crate::ui_state::EditorView;
use crate::ui_state::GraphEditorState;
use crate::ui_state::NodeFinder;
use vstd::prelude::*;
use vstd::std_specs::cmp::PartialEqSpec;

verus! {

/// The connection that a drag makes when it ends at a port: none unless the
/// drag began at a port of another node, the two ports have the same data
/// type, the pointer is close enough and was released, and one of the two
/// ports is an input and the other an output.
pub open spec fn drop_verdict(
    node_id: NodeId,
    param_id: AnyParameterId,
    ongoing_drag: Option<(NodeId, AnyParameterId)>,
    same_type: bool,
    close_enough: bool,
    released: bool,
) -> Option<(OutputId, InputId)> {
    match ongoing_drag {
        Some((origin_node, origin_param)) => {
            if origin_node != node_id && same_type && close_enough && released {
                match (param_id, origin_param) {
                    (AnyParameterId::Input(input), AnyParameterId::Output(output)) => Some(
                        (output, input),
                    ),
                    (AnyParameterId::Output(output), AnyParameterId::Input(input)) => Some(
                        (output, input),
                    ),
                    _ => None,
                }
            } else {
                None
            }
        },
        None => None,
    }
}

/// Decides whether a drag connects when it ends at the port `param_id` of
/// node `node_id`, and what. A drag never connects two ports of one node,
/// nor ports whose data types differ, however close the pointer is.
pub fn drop_connection(
    node_id: NodeId,
    param_id: AnyParameterId,
    ongoing_drag: Option<(NodeId, AnyParameterId)>,
    same_type: bool,
    close_enough: bool,
    released: bool,
) -> (link: Option<(OutputId, InputId)>)
    ensures
        link == drop_verdict(node_id, param_id, ongoing_drag, same_type, close_enough, released),
        !same_type ==> link is None,
        ongoing_drag matches Some((origin_node, _)) ==> (origin_node == node_id ==> link is None),
        link matches Some((output, input)) ==> {
            &&& ongoing_drag matches Some((_, origin_param))
            &&& (param_id == AnyParameterId::Input(input) && origin_param
                == AnyParameterId::Output(output)) || (param_id == AnyParameterId::Output(output)
                && origin_param == AnyParameterId::Input(input))
        },
{
    match ongoing_drag {
        Some((origin_node, origin_param)) => {
            if origin_node != node_id && same_type && close_enough && released {
                match (param_id, origin_param) {
                    (AnyParameterId::Input(input), AnyParameterId::Output(output)) => Some(
                        (output, input),
                    ),
                    (AnyParameterId::Output(output), AnyParameterId::Input(input)) => Some(
                        (output, input),
                    ),
                    _ => None,
                }
            } else {
                None
            }
        },
        None => None,
    }
}

/// What a port reports when a drag begins at it: the break of the
/// connection into it where it is a connected input, so that the drag
/// goes on from the output at the far end, and else the start of a drag.
pub open spec fn press_report<UserResponse, NodeData, DataType, ValueType, Delta>(
    graph: GraphView<NodeData, DataType, ValueType>,
    node_id: NodeId,
    param_id: AnyParameterId,
) -> NodeResponse<UserResponse, NodeData, Delta> {
    match param_id {
        AnyParameterId::Input(input) if graph.connections.contains_key(input) => {
            NodeResponse::DisconnectEvent { output: graph.connections[input], input }
        },
        _ => NodeResponse::ConnectEventStarted(node_id, param_id),
    }
}

/// What a port reports in one pass: what it reports for a drag that begins
/// at it, and then the connection that a drag makes by ending at it.
pub open spec fn port_report<UserResponse, NodeData, DataType, ValueType, Delta>(
    graph: GraphView<NodeData, DataType, ValueType>,
    node_id: NodeId,
    param_id: AnyParameterId,
    ongoing_drag: Option<(NodeId, AnyParameterId)>,
    drag_started: bool,
    same_type: bool,
    close_enough: bool,
    released: bool,
) -> Seq<NodeResponse<UserResponse, NodeData, Delta>> {
    let pressed = if drag_started {
        seq![press_report(graph, node_id, param_id)]
    } else {
        Seq::empty()
    };
    match drop_verdict(node_id, param_id, ongoing_drag, same_type, close_enough, released) {
        Some((output, input)) => pressed.push(NodeResponse::ConnectEventEnded { output, input }),
        None => pressed,
    }
}

/// A port reports no connection for a drag between ports of different data
/// types, nor for a drag that began at a port of the same node, wherever
/// the pointer is and whatever it does.
pub proof fn lemma_port_reports_no_connection<UserResponse, NodeData, DataType, ValueType, Delta>(
    graph: GraphView<NodeData, DataType, ValueType>,
    node_id: NodeId,
    param_id: AnyParameterId,
    ongoing_drag: Option<(NodeId, AnyParameterId)>,
    drag_started: bool,
    same_type: bool,
    close_enough: bool,
    released: bool,
)
    requires
        !same_type || (ongoing_drag matches Some((origin_node, _)) && origin_node == node_id),
    ensures
        forall|k: int|
            0 <= k < port_report::<UserResponse, NodeData, DataType, ValueType, Delta>(
                graph,
                node_id,
                param_id,
                ongoing_drag,
                drag_started,
                same_type,
                close_enough,
                released,
            ).len() ==> !(#[trigger] port_report::<
                UserResponse,
                NodeData,
                DataType,
                ValueType,
                Delta,
            >(
                graph,
                node_id,
                param_id,
                ongoing_drag,
                drag_started,
                same_type,
                close_enough,
                released,
            )[k] is ConnectEventEnded),
{
    assert(drop_verdict(node_id, param_id, ongoing_drag, same_type, close_enough, released)
        is None);
}

/// Whether `same_type` may be the outcome of comparing the data type of the
/// port at which a drag began with that of the port at which it ends: where
/// the comparison of data types keeps to its specification, it is that
/// outcome.
pub open spec fn type_verdict<NodeData, DataType: PartialEq, ValueType>(
    graph: GraphView<NodeData, DataType, ValueType>,
    origin_param: AnyParameterId,
    param_id: AnyParameterId,
    same_type: bool,
) -> bool {
    DataType::obeys_eq_spec() ==> same_type == graph.port_type(origin_param).eq_spec(
        &graph.port_type(param_id),
    )
}

/// Adds to `responses` what the port `param_id` of node `node_id` reports,
/// given whether the data types of the two ports of the drag are the same.
pub fn port_responses_for<UserResponse, NodeData, DataType, ValueType, Delta>(
    graph: &Graph<NodeData, DataType, ValueType>,
    node_id: NodeId,
    param_id: AnyParameterId,
    ongoing_drag: Option<(NodeId, AnyParameterId)>,
    drag_started: bool,
    same_type: bool,
    close_enough: bool,
    released: bool,
    responses: &mut Vec<NodeResponse<UserResponse, NodeData, Delta>>,
)
    requires
        graph.wf(),
    ensures
        final(responses)@ == old(responses)@ + port_report(
            graph@,
            node_id,
            param_id,
            ongoing_drag,
            drag_started,
            same_type,
            close_enough,
            released,
        ),
{
    let ghost start = responses@;
    let ghost report = port_report::<UserResponse, NodeData, DataType, ValueType, Delta>(
        graph@,
        node_id,
        param_id,
        ongoing_drag,
        drag_started,
        same_type,
        close_enough,
        released,
    );
    if drag_started {
        let connected = match param_id {
            AnyParameterId::Input(input) => graph.connection(input),
            AnyParameterId::Output(_) => None,
        };
        match connected {
            Some(output) => {
                responses.push(
                    NodeResponse::DisconnectEvent { output, input: param_id.assume_input() },
                );
            },
            None => {
                responses.push(NodeResponse::ConnectEventStarted(node_id, param_id));
            },
        }
    }
    match drop_connection(node_id, param_id, ongoing_drag, same_type, close_enough, released) {
        Some((output, input)) => {
            responses.push(NodeResponse::ConnectEventEnded { output, input });
        },
        None => {},
    }
    proof {
        assert(responses@ =~= start + report);
    }
}

/// Adds to `responses` what the port `param_id` of node `node_id` reports
/// in one pass. The data types of the two ports of a drag are compared
/// here; whatever the comparison says, a drag that began at a port of the
/// same node reports no connection.
pub fn port_responses<UserResponse, NodeData, DataType: PartialEq, ValueType, Delta>(
    graph: &Graph<NodeData, DataType, ValueType>,
    node_id: NodeId,
    param_id: AnyParameterId,
    ongoing_drag: Option<(NodeId, AnyParameterId)>,
    drag_started: bool,
    close_enough: bool,
    released: bool,
    responses: &mut Vec<NodeResponse<UserResponse, NodeData, Delta>>,
)
    requires
        graph.wf(),
        graph@.has_port(param_id),
        ongoing_drag matches Some((origin_node, origin_param)) ==> (origin_node == node_id
            || graph@.has_port(origin_param)),
    ensures
        exists|same_type: bool|
            {
                &&& ongoing_drag matches Some((origin_node, origin_param)) ==> (origin_node
                    == node_id || type_verdict(graph@, origin_param, param_id, same_type))
                &&& final(responses)@ == old(responses)@ + #[trigger] port_report(
                    graph@,
                    node_id,
                    param_id,
                    ongoing_drag,
                    drag_started,
                    same_type,
                    close_enough,
                    released,
                )
            },
{
    let same_type = match ongoing_drag {
        Some((origin_node, origin_param)) => {
            if origin_node != node_id {
                let port_type = graph.any_param_type(param_id).unwrap();
                let origin_type = graph.any_param_type(origin_param).unwrap();
                *origin_type == *port_type
            } else {
                false
            }
        },
        None => false,
    };
    port_responses_for(
        graph,
        node_id,
        param_id,
        ongoing_drag,
        drag_started,
        same_type,
        close_enough,
        released,
        responses,
    );
}

/// The key of a port.
pub open spec fn port_key(param: AnyParameterId) -> u64 {
    match param {
        AnyParameterId::Input(input) => input.key,
        AnyParameterId::Output(output) => output.key,
    }
}

/// Whether one of the two ports is an input and the other an output.
pub open spec fn opposite(a: AnyParameterId, b: AnyParameterId) -> bool {
    (a is Input && b is Output) || (a is Output && b is Input)
}

/// Whether the port takes connections: every output does, and every input
/// but one that is a constant only.
pub open spec fn connectable<NodeData, DataType, ValueType>(
    graph: GraphView<NodeData, DataType, ValueType>,
    param: AnyParameterId,
) -> bool {
    match param {
        AnyParameterId::Input(input) => !(graph.inputs[input].kind is ConstantOnly),
        AnyParameterId::Output(_) => true,
    }
}

/// Whether a drag from the port `origin` can end at the port `target`, the
/// pointer apart: the two are an input and an output, they are ports of two
/// nodes, and the target takes connections.
pub open spec fn may_face<NodeData, DataType, ValueType>(
    graph: GraphView<NodeData, DataType, ValueType>,
    origin: AnyParameterId,
    target: AnyParameterId,
) -> bool {
    &&& graph.has_port(target)
    &&& opposite(origin, target)
    &&& graph.port_node(target) != graph.port_node(origin)
    &&& connectable(graph, target)
}

/// The ports that a drag from the port `origin` can end at, the pointer
/// apart: the ports of the other direction, on other nodes, that take
/// connections and whose data type compares equal to that of `origin`, in
/// the order of their slots.
pub fn compatible_ports<NodeData, DataType: PartialEq, ValueType>(
    graph: &Graph<NodeData, DataType, ValueType>,
    origin: AnyParameterId,
) -> (ports: Vec<AnyParameterId>)
    requires
        graph.wf(),
        graph@.has_port(origin),
    ensures
        forall|k: int| 0 <= k < ports.len() ==> may_face(graph@, origin, #[trigger] ports[k]),
        forall|a: int, b: int|
            0 <= a < b < ports.len() ==> slot_index(port_key(#[trigger] ports[a])) < slot_index(
                port_key(#[trigger] ports[b]),
            ),
        DataType::obeys_eq_spec() ==> forall|p: AnyParameterId|
            may_face(graph@, origin, p) ==> (ports@.contains(p) <==> #[trigger] graph@.port_type(
                p,
            ).eq_spec(&graph@.port_type(origin))),
{
    let candidates = match origin {
        AnyParameterId::Output(_) => inputs_as_ports(graph),
        AnyParameterId::Input(_) => outputs_as_ports(graph),
    };
    let origin_type = graph.any_param_type(origin).unwrap();
    let origin_node = graph.any_param_node(origin).unwrap();
    let mut ports: Vec<AnyParameterId> = Vec::new();
    let ghost mut chosen: Seq<int> = Seq::empty();
    proof {
        assert forall|p: AnyParameterId|
            graph@.has_port(p) && opposite(origin, p) implies candidates@.contains(p) by {}
    }
    let mut k: usize = 0;
    while k < candidates.len()
        invariant
            k <= candidates.len(),
            graph@.has_port(origin),
            *origin_type == graph@.port_type(origin),
            origin_node == graph@.port_node(origin),
            forall|a: int|
                0 <= a < candidates.len() ==> graph@.has_port(#[trigger] candidates[a])
                    && opposite(origin, candidates[a]),
            forall|p: AnyParameterId|
                graph@.has_port(p) && opposite(origin, p) ==> candidates@.contains(p),
            chosen.len() == ports.len(),
            forall|a: int|
                0 <= a < ports.len() ==> 0 <= #[trigger] chosen[a] < k && ports[a]
                    == candidates[chosen[a]] && graph@.port_node(ports[a]) != origin_node
                    && connectable(graph@, ports[a]),
            forall|a: int, b: int|
                0 <= a < b < ports.len() ==> #[trigger] chosen[a] < #[trigger] chosen[b],
            DataType::obeys_eq_spec() ==> forall|a: int|
                0 <= a < ports.len() ==> graph@.port_type(#[trigger] ports[a]).eq_spec(
                    &graph@.port_type(origin),
                ),
            DataType::obeys_eq_spec() ==> forall|j: int|
                0 <= j < k && graph@.port_node(#[trigger] candidates[j]) != origin_node
                    && connectable(graph@, candidates[j]) && graph@.port_type(
                    candidates[j],
                ).eq_spec(&graph@.port_type(origin)) ==> exists|a: int|
                    0 <= a < ports.len() && #[trigger] chosen[a] == j,
        decreases candidates.len() - k,
    {
        let candidate = candidates[k];
        let candidate_node = graph.any_param_node(candidate).unwrap();
        let candidate_type = graph.any_param_type(candidate).unwrap();
        let takes_connections = match candidate {
            AnyParameterId::Input(input) => graph.get_input(input).kind().has_port(),
            AnyParameterId::Output(_) => true,
        };
        if candidate_node != origin_node && takes_connections && *candidate_type
            == *origin_type {
            let ghost before = chosen;
            ports.push(candidate);
            proof {
                chosen = chosen.push(k as int);
                assert forall|a: int| 0 <= a < ports.len() implies
                    0 <= #[trigger] chosen[a] < k + 1 && ports[a] == candidates[chosen[a]]
                    && graph@.port_node(ports[a]) != origin_node && connectable(
                    graph@,
                    ports[a],
                ) by {
                    if a < before.len() {
                        assert(chosen[a] == before[a]);
                    }
                }
                assert forall|a: int, b: int| 0 <= a < b < ports.len() implies #[trigger] chosen[a]
                    < #[trigger] chosen[b] by {
                    assert(chosen[a] == before[a]);
                    if b < before.len() {
                        assert(chosen[b] == before[b]);
                    }
                }
                if DataType::obeys_eq_spec() {
                    assert forall|j: int|
                        0 <= j < k + 1 && graph@.port_node(#[trigger] candidates[j]) != origin_node
                            && connectable(graph@, candidates[j]) && graph@.port_type(
                            candidates[j],
                        ).eq_spec(&graph@.port_type(origin)) implies exists|a: int|
                        0 <= a < ports.len() && #[trigger] chosen[a] == j by {
                        if j < k {
                            let a = choose|a: int|
                                0 <= a < before.len() && #[trigger] before[a] == j;
                            assert(chosen[a] == j);
                        } else {
                            assert(chosen[before.len() as int] == j);
                        }
                    }
                }
            }
        }
        k += 1;
    }
    proof {
        assert forall|a: int| 0 <= a < ports.len() implies may_face(
            graph@,
            origin,
            #[trigger] ports[a],
        ) by {
            assert(ports[a] == candidates[chosen[a]]);
        }
        assert forall|a: int, b: int| 0 <= a < b < ports.len() implies slot_index(
            port_key(#[trigger] ports[a]),
        ) < slot_index(port_key(#[trigger] ports[b])) by {
            assert(chosen[a] < chosen[b]);
            assert(ports[a] == candidates[chosen[a]]);
            assert(ports[b] == candidates[chosen[b]]);
        }
        if DataType::obeys_eq_spec() {
            assert forall|p: AnyParameterId| may_face(graph@, origin, p) implies
                (ports@.contains(p) <==> #[trigger] graph@.port_type(p).eq_spec(
                    &graph@.port_type(origin),
                )) by {
                if ports@.contains(p) {
                    let a = choose|a: int| 0 <= a < ports.len() && ports[a] == p;
                    assert(graph@.port_type(ports[a]).eq_spec(&graph@.port_type(origin)));
                }
                if graph@.port_type(p).eq_spec(&graph@.port_type(origin)) {
                    assert(candidates@.contains(p));
                    let j = choose|j: int| 0 <= j < candidates.len() && candidates[j] == p;
                    assert(graph@.port_node(candidates[j]) != origin_node);
                    assert(connectable(graph@, candidates[j]));
                    let a = choose|a: int| 0 <= a < ports.len() && #[trigger] chosen[a] == j;
                    assert(ports[a] == candidates[chosen[a]]);
                    assert(ports[a] == p);
                }
            }
        }
    }
    ports
}

/// All input ports of the graph, in the order of their slots.
fn inputs_as_ports<NodeData, DataType, ValueType>(
    graph: &Graph<NodeData, DataType, ValueType>,
) -> (ports: Vec<AnyParameterId>)
    requires
        graph.wf(),
    ensures
        forall|k: int|
            0 <= k < ports.len() ==> (#[trigger] ports[k]) is Input && graph@.has_port(ports[k]),
        forall|p: AnyParameterId| p is Input && graph@.has_port(p) ==> ports@.contains(p),
        forall|a: int, b: int|
            0 <= a < b < ports.len() ==> slot_index(port_key(#[trigger] ports[a])) < slot_index(
                port_key(#[trigger] ports[b]),
            ),
{
    let ids = graph.iter_inputs();
    let mut ports: Vec<AnyParameterId> = Vec::new();
    let mut k: usize = 0;
    while k < ids.len()
        invariant
            k <= ids.len(),
            ports.len() == k,
            forall|a: int| 0 <= a < k ==> #[trigger] ports[a] == AnyParameterId::Input(ids[a]),
        decreases ids.len() - k,
    {
        ports.push(AnyParameterId::Input(ids[k]));
        k += 1;
    }
    proof {
        assert forall|a: int| 0 <= a < ports.len() implies (#[trigger] ports[a]) is Input
            && graph@.has_port(ports[a]) by {
            assert(ids@.to_set().contains(ids[a]));
        }
        assert forall|p: AnyParameterId| p is Input && graph@.has_port(p) implies ports@.contains(
            p,
        ) by {
            let id = p->Input_0;
            assert(ids@.to_set().contains(id));
            let a = choose|a: int| 0 <= a < ids.len() && ids[a] == id;
            assert(ports[a] == p);
        }
        assert forall|a: int, b: int| 0 <= a < b < ports.len() implies slot_index(
            port_key(#[trigger] ports[a]),
        ) < slot_index(port_key(#[trigger] ports[b])) by {
            assert(slot_index(ids[a].key) < slot_index(ids[b].key));
        }
    }
    ports
}

/// All output ports of the graph, in the order of their slots.
fn outputs_as_ports<NodeData, DataType, ValueType>(
    graph: &Graph<NodeData, DataType, ValueType>,
) -> (ports: Vec<AnyParameterId>)
    requires
        graph.wf(),
    ensures
        forall|k: int|
            0 <= k < ports.len() ==> (#[trigger] ports[k]) is Output && graph@.has_port(ports[k]),
        forall|p: AnyParameterId| p is Output && graph@.has_port(p) ==> ports@.contains(p),
        forall|a: int, b: int|
            0 <= a < b < ports.len() ==> slot_index(port_key(#[trigger] ports[a])) < slot_index(
                port_key(#[trigger] ports[b]),
            ),
{
    let ids = graph.iter_outputs();
    let mut ports: Vec<AnyParameterId> = Vec::new();
    let mut k: usize = 0;
    while k < ids.len()
        invariant
            k <= ids.len(),
            ports.len() == k,
            forall|a: int| 0 <= a < k ==> #[trigger] ports[a] == AnyParameterId::Output(ids[a]),
        decreases ids.len() - k,
    {
        ports.push(AnyParameterId::Output(ids[k]));
        k += 1;
    }
    proof {
        assert forall|a: int| 0 <= a < ports.len() implies (#[trigger] ports[a]) is Output
            && graph@.has_port(ports[a]) by {
            assert(ids@.to_set().contains(ids[a]));
        }
        assert forall|p: AnyParameterId| p is Output && graph@.has_port(p) implies ports@.contains(
            p,
        ) by {
            let id = p->Output_0;
            assert(ids@.to_set().contains(id));
            let a = choose|a: int| 0 <= a < ids.len() && ids[a] == id;
            assert(ports[a] == p);
        }
        assert forall|a: int, b: int| 0 <= a < b < ports.len() implies slot_index(
            port_key(#[trigger] ports[a]),
        ) < slot_index(port_key(#[trigger] ports[b])) by {
            assert(slot_index(ids[a].key) < slot_index(ids[b].key));
        }
    }
    ports
}

/// What a node's window reports in one pass, after the node's ports and
/// widgets have reported: a request to delete the node where its close
/// button was clicked; a move and a raise where it was dragged; a select and
/// a raise where it was clicked and nothing else was reported for the node.
pub open spec fn window_report<UserResponse, NodeData, Delta>(
    node_id: NodeId,
    quiet: bool,
    delete_clicked: bool,
    drag_delta: Option<Delta>,
    clicked: bool,
) -> Seq<NodeResponse<UserResponse, NodeData, Delta>> {
    let deleted: Seq<NodeResponse<UserResponse, NodeData, Delta>> = if delete_clicked {
        seq![NodeResponse::DeleteNodeUi(node_id)]
    } else {
        Seq::empty()
    };
    let moved = match drag_delta {
        Some(delta) => deleted.push(
            NodeResponse::MoveNode { node: node_id, drag_delta: delta },
        ).push(NodeResponse::RaiseNode(node_id)),
        None => deleted,
    };
    if quiet && moved.len() == 0 && clicked {
        moved.push(NodeResponse::SelectNode(node_id)).push(NodeResponse::RaiseNode(node_id))
    } else {
        moved
    }
}

/// Adds to `responses`, which holds what was reported for the node so far,
/// what the node's window reports. `drag_delta` is the distance by which
/// the window was dragged, if it was.
pub fn window_responses<UserResponse, NodeData, Delta>(
    node_id: NodeId,
    delete_clicked: bool,
    drag_delta: Option<Delta>,
    clicked: bool,
    responses: &mut Vec<NodeResponse<UserResponse, NodeData, Delta>>,
)
    ensures
        final(responses)@ == old(responses)@ + window_report(
            node_id,
            old(responses)@.len() == 0,
            delete_clicked,
            drag_delta,
            clicked,
        ),
{
    let ghost start = responses@;
    if delete_clicked {
        responses.push(NodeResponse::DeleteNodeUi(node_id));
    }
    match drag_delta {
        Some(delta) => {
            responses.push(NodeResponse::MoveNode { node: node_id, drag_delta: delta });
            responses.push(NodeResponse::RaiseNode(node_id));
        },
        None => {},
    }
    if responses.len() == 0 && clicked {
        responses.push(NodeResponse::SelectNode(node_id));
        responses.push(NodeResponse::RaiseNode(node_id));
    }
    proof {
        assert(responses@ =~= start + window_report(
            node_id,
            start.len() == 0,
            delete_clicked,
            drag_delta,
            clicked,
        ));
    }
}

impl InputParamKind {
    /// Whether an input of this kind has a port to connect to.
    pub fn has_port(self) -> (shown: bool)
        ensures
            shown == !(self is ConstantOnly),
    {
        match self {
            InputParamKind::ConnectionOnly => true,
            InputParamKind::ConstantOnly => false,
            InputParamKind::ConnectionOrConstant => true,
        }
    }
}

/// The requests to delete that the delete key makes: one for each selected
/// node that may be deleted, in the order of the selection.
pub open spec fn delete_report<UserResponse, NodeData, Delta>(
    selected: Seq<NodeId>,
    can_delete: Seq<bool>,
    upto: int,
) -> Seq<NodeResponse<UserResponse, NodeData, Delta>>
    decreases upto,
{
    if upto <= 0 {
        Seq::empty()
    } else if can_delete[upto - 1] {
        delete_report(selected, can_delete, upto - 1).push(
            NodeResponse::DeleteNodeUi(selected[upto - 1]),
        )
    } else {
        delete_report(selected, can_delete, upto - 1)
    }
}

/// Adds to `responses` the requests to delete that the delete key makes.
/// `can_delete` says of each selected node, in the order of the selection,
/// whether it may be deleted.
pub fn delete_key_responses<UserResponse, NodeData, Delta>(
    selected: &Vec<NodeId>,
    can_delete: &Vec<bool>,
    responses: &mut Vec<NodeResponse<UserResponse, NodeData, Delta>>,
)
    requires
        can_delete.len() == selected.len(),
    ensures
        final(responses)@ == old(responses)@ + delete_report(
            selected@,
            can_delete@,
            selected@.len() as int,
        ),
{
    let ghost start = responses@;
    let mut k: usize = 0;
    proof {
        assert(responses@ =~= start + delete_report::<UserResponse, NodeData, Delta>(
            selected@,
            can_delete@,
            0,
        ));
    }
    while k < selected.len()
        invariant
            k <= selected.len(),
            can_delete.len() == selected.len(),
            responses@ == start + delete_report(selected@, can_delete@, k as int),
        decreases selected.len() - k,
    {
        if can_delete[k] {
            responses.push(NodeResponse::DeleteNodeUi(selected[k]));
        }
        proof {
            assert(responses@ =~= start + delete_report(selected@, can_delete@, k + 1));
        }
        k += 1;
    }
}

/// What the pointer and the keys did in one pass, as far as the editor's
/// background is concerned.
pub struct PointerState<Pos> {
    /// Where the pointer is.
    pub cursor_pos: Pos,
    /// The background was clicked.
    pub clicked_on_background: bool,
    /// A drag began on the background.
    pub drag_started_on_background: bool,
    /// A drag that began on the background ended.
    pub drag_released_on_background: bool,
    /// The key that makes a selection additive is down.
    pub shift_pressed: bool,
    pub primary_down: bool,
    pub primary_released: bool,
    pub secondary_released: bool,
    /// Any button was released.
    pub any_released: bool,
    /// The key that closes the palette was pressed.
    pub escape_pressed: bool,
    /// The pointer is over the editor; the palette counts as part of it.
    pub cursor_in_editor: bool,
    /// The pointer is over the palette.
    pub cursor_in_finder: bool,
}

/// Whether a pass opens the palette: the secondary button was released at a
/// place that opens it, and neither the escape key nor a click on the
/// background closed it again.
pub open spec fn palette_opens<Pos>(input: PointerState<Pos>, opens: bool) -> bool {
    input.secondary_released && opens && !input.escape_pressed && !input.clicked_on_background
}

impl<NodeData, DataType, ValueType, Pos> EditorView<NodeData, DataType, ValueType, Pos> {
    /// The palette after a pass: opened at the pointer where the secondary
    /// button was released at a place that opens it, closed by the escape
    /// key and by a click on the background.
    pub open spec fn finder_after(self, input: PointerState<Pos>, opens: bool) -> Option<
        NodeFinder<Pos>,
    > {
        if input.escape_pressed || input.clicked_on_background {
            None
        } else if input.secondary_released && opens {
            Some(NodeFinder { position: Some(input.cursor_pos) })
        } else {
            self.node_finder
        }
    }

    /// The selection after a pass: emptied by a click on the background,
    /// unless the selection is being added to.
    pub open spec fn selection_after(self, input: PointerState<Pos>) -> Seq<NodeId> {
        if input.clicked_on_background && !input.shift_pressed {
            Seq::empty()
        } else {
            self.selected_nodes
        }
    }

    /// The box selection after a pass: ended where the primary button or a
    /// drag on the background was released, else begun at the pointer where
    /// a drag began on the background with the primary button down.
    pub open spec fn box_selection_after(self, input: PointerState<Pos>) -> Option<Pos> {
        if input.primary_released || input.drag_released_on_background {
            None
        } else if input.drag_started_on_background && input.primary_down {
            Some(input.cursor_pos)
        } else {
            self.ongoing_box_selection
        }
    }

    /// The state after the pointer and the keys were attended to from a
    /// panel beside the editor.
    pub open spec fn after_interaction(self, input: PointerState<Pos>) -> Self {
        EditorView {
            node_finder: self.finder_after(input, input.cursor_in_editor),
            selected_nodes: self.selection_after(input),
            ongoing_box_selection: self.box_selection_after(input),
            ..self
        }
    }

    /// The state at the end of a pass: any release of a button ends the
    /// drag in progress, whether or not it connected.
    pub open spec fn after_pass(self, input: PointerState<Pos>) -> Self {
        EditorView {
            connection_in_progress: if input.any_released {
                None
            } else {
                self.connection_in_progress
            },
            node_finder: self.finder_after(
                input,
                input.cursor_in_editor && !input.cursor_in_finder,
            ),
            selected_nodes: self.selection_after(input),
            ongoing_box_selection: self.box_selection_after(input),
            ..self
        }
    }
}

impl<NodeData, DataType, ValueType, Pos: Copy> GraphEditorState<
    NodeData,
    DataType,
    ValueType,
    Pos,
> {
    /// Attends to the palette, the selection and the box selection, and
    /// says whether the palette was opened.
    fn attend_background(&mut self, input: &PointerState<Pos>, opens: bool) -> (opened: bool)
        requires
            old(self).wf(),
        ensures
            final(self).wf(),
            final(self)@ == (EditorView {
                node_finder: old(self)@.finder_after(*input, opens),
                selected_nodes: old(self)@.selection_after(*input),
                ongoing_box_selection: old(self)@.box_selection_after(*input),
                ..old(self)@
            }),
            opened == palette_opens(*input, opens),
    {
        if input.secondary_released && opens {
            self.node_finder = Some(NodeFinder::new_at(input.cursor_pos));
        }
        if input.escape_pressed {
            self.node_finder = None;
        }
        if input.clicked_on_background {
            if !input.shift_pressed {
                self.selected_nodes.clear();
            }
            self.node_finder = None;
        }
        if input.drag_started_on_background && input.primary_down {
            self.ongoing_box_selection = Some(input.cursor_pos);
        }
        if input.primary_released || input.drag_released_on_background {
            self.ongoing_box_selection = None;
        }
        input.secondary_released && opens && !input.escape_pressed && !input.clicked_on_background
    }

    /// Attends to the pointer and the keys from a panel beside the editor:
    /// the palette, the selection and the box selection change as they do
    /// at the end of a pass. Says whether the palette was opened.
    pub fn graph_editor_interaction(&mut self, input: &PointerState<Pos>) -> (opened: bool)
        requires
            old(self).wf(),
        ensures
            final(self).wf(),
            final(self)@ == old(self)@.after_interaction(*input),
            opened == palette_opens(*input, input.cursor_in_editor),
    {
        self.attend_background(input, input.cursor_in_editor)
    }

    /// Ends a pass: attends to the pointer and the keys once the responses
    /// of the pass have been resolved. Says whether the palette was opened.
    pub fn finish_pass(&mut self, input: &PointerState<Pos>) -> (opened: bool)
        requires
            old(self).wf(),
        ensures
            final(self).wf(),
            final(self)@ == old(self)@.after_pass(*input),
            opened == palette_opens(*input, input.cursor_in_editor && !input.cursor_in_finder),
    {
        if input.any_released && self.connection_in_progress.is_some() {
            self.connection_in_progress = None;
        }
        self.attend_background(input, input.cursor_in_editor && !input.cursor_in_finder)
    }
}

} // verus!

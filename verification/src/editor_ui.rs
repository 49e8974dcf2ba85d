//! What happens in the editor, as a list of responses, and how the
//! responses are resolved against the editor's state.
//!
//! The responses that the nodes give while they are drawn are collected
//! first and resolved afterwards, in the order in which they were collected.
//! What resolving one brings about, such as the connections that break when
//! a node is deleted, is reported after all of them.

use crate::graph::GraphView;
use crate::graph::MAX_ITEMS;
use crate::graph::Node;
use crate::graph::NodeView;
use crate::graph::link_listing;
use crate::graph::node_listing;
use crate::graph_copy::copies;
use crate::graph_copy::is_node_of;
use crate::graph_copy::sources;
use crate::id_type::AnyParameterId;
use crate::id_type::InputId;
use crate::id_type::NodeId;
use crate::id_type::OutputId;
use crate::interaction::PointerState;
use crate::interaction::palette_opens;
use crate::ui_state::EditorView;
use crate::ui_state::GraphEditorState;
use crate::ui_state::lemma_without_node;
use crate::ui_state::not_node;
use crate::ui_state::position_of;
use crate::ui_state::remove_node_id;
use std::collections::HashMap;
use vstd::prelude::*;

verus! {

broadcast use vstd::std_specs::hash::group_hash_axioms;

/// What a node reports while it is drawn, and what resolving such reports
/// brings about. `User` carries whatever the host's own widgets reported.
#[allow(inconsistent_fields)]
#[derive(Clone, Debug)]
pub enum NodeResponse<UserResponse, NodeData, Delta> {
    /// A drag began at a port of the node.
    ConnectEventStarted(NodeId, AnyParameterId),
    /// A drag ended on a port that accepts it.
    ConnectEventEnded { output: OutputId, input: InputId },
    /// A node was created from the palette.
    CreatedNode(NodeId),
    SelectNode(NodeId),
    /// The user asked for the node to be deleted.
    DeleteNodeUi(NodeId),
    /// The node was deleted: it is no longer in the graph, and here it is.
    DeleteNodeFull { node_id: NodeId, node: Node<NodeData> },
    /// The connection is to be broken, or was broken with a node.
    DisconnectEvent { output: OutputId, input: InputId },
    /// The node is to be drawn on top.
    RaiseNode(NodeId),
    /// The node was dragged by that much.
    MoveNode { node: NodeId, drag_delta: Delta },
    User(UserResponse),
}

/// What one pass over the editor reports to the host.
#[derive(Clone, Debug)]
pub struct GraphResponse<UserResponse, NodeData, Delta> {
    /// What happened in this pass: the responses that were collected, in
    /// that order, and after them what resolving them brought about.
    pub node_responses: Vec<NodeResponse<UserResponse, NodeData, Delta>>,
    /// Whether the pointer is over the editor; the palette counts as part
    /// of the editor wherever it is.
    pub cursor_in_editor: bool,
    /// Whether the pointer is over the palette.
    pub cursor_in_finder: bool,
}

impl<UserResponse, NodeData, Delta> Default for GraphResponse<UserResponse, NodeData, Delta> {
    fn default() -> (response: Self)
        ensures
            response.node_responses@.len() == 0,
            !response.cursor_in_editor,
            !response.cursor_in_finder,
    {
        GraphResponse {
            node_responses: Vec::new(),
            cursor_in_editor: false,
            cursor_in_finder: false,
        }
    }
}

/// The connections that the first `upto` events report as broken.
pub open spec fn broken_links<UserResponse, NodeData, Delta>(
    events: Seq<NodeResponse<UserResponse, NodeData, Delta>>,
    upto: int,
) -> Seq<(InputId, OutputId)> {
    Seq::new(
        upto as nat,
        |j: int|
            match events[j] {
                NodeResponse::DisconnectEvent { output, input } => (input, output),
                _ => arbitrary(),
            },
    )
}

/// `events` is the report of the deletion of `node` from `graph`: one
/// disconnect event for each connection that had an end on the node, in the
/// order of the inputs' slots, and then the node itself.
pub open spec fn is_delete_report<UserResponse, NodeData, DataType, ValueType, Delta>(
    events: Seq<NodeResponse<UserResponse, NodeData, Delta>>,
    graph: GraphView<NodeData, DataType, ValueType>,
    node: NodeId,
) -> bool {
    &&& events.len() >= 1
    &&& events.last() matches NodeResponse::DeleteNodeFull { node_id, node: removed }
    &&& node_id == node
    &&& removed@ == graph.nodes[node]
    &&& forall|j: int| 0 <= j < events.len() - 1 ==> #[trigger] events[j] is DisconnectEvent
    &&& link_listing(broken_links(events, events.len() - 1), graph.links_of_node(node))
}

impl<NodeData, DataType, ValueType, Pos> EditorView<NodeData, DataType, ValueType, Pos> {
    /// Whether the response can be resolved in this state: what it names is
    /// there. A `DeleteNodeFull` is a report and is never resolved.
    pub open spec fn admits<UserResponse, Delta>(
        self,
        response: NodeResponse<UserResponse, NodeData, Delta>,
    ) -> bool {
        match response {
            NodeResponse::ConnectEventStarted(_, _) => true,
            NodeResponse::ConnectEventEnded { output, input } => self.graph.inputs.contains_key(
                input,
            ) && self.graph.outputs.contains_key(output),
            NodeResponse::CreatedNode(_) => true,
            NodeResponse::SelectNode(node) => self.graph.nodes.contains_key(node),
            NodeResponse::DeleteNodeUi(node) => self.graph.nodes.contains_key(node),
            NodeResponse::DeleteNodeFull { .. } => false,
            NodeResponse::DisconnectEvent { output, .. } => self.graph.outputs.contains_key(output),
            NodeResponse::RaiseNode(node) => self.node_order.contains(node),
            NodeResponse::MoveNode { node, .. } => self.node_positions.contains_key(node),
            NodeResponse::User(_) => true,
        }
    }

    /// The state after the response was resolved. `additive` says whether a
    /// selected node joins the selection or replaces it.
    pub open spec fn step<UserResponse, Delta>(
        self,
        response: NodeResponse<UserResponse, NodeData, Delta>,
        additive: bool,
    ) -> Self {
        match response {
            NodeResponse::ConnectEventStarted(node, port) => EditorView {
                connection_in_progress: Some((node, port)),
                ..self
            },
            NodeResponse::ConnectEventEnded { output, input } => EditorView {
                graph: GraphView {
                    connections: self.graph.connections.insert(input, output),
                    ..self.graph
                },
                ..self
            },
            NodeResponse::SelectNode(node) => EditorView {
                selected_nodes: self.selection_with(node, additive),
                ..self
            },
            NodeResponse::DeleteNodeUi(node) => EditorView {
                graph: self.graph.without_node(node),
                node_order: self.node_order.filter(not_node(node)),
                selected_nodes: self.selected_nodes.filter(not_node(node)),
                node_positions: self.node_positions.remove(node),
                ..self
            },
            NodeResponse::DisconnectEvent { output, input } => EditorView {
                graph: GraphView {
                    connections: self.graph.connections.remove(input),
                    ..self.graph
                },
                connection_in_progress: Some(
                    (self.graph.outputs[output].node, AnyParameterId::Output(output)),
                ),
                ..self
            },
            NodeResponse::RaiseNode(node) => EditorView {
                node_order: self.order_with_raised(node),
                ..self
            },
            _ => self,
        }
    }

    /// The nodes that move when `node` is dragged: the node, and with it
    /// the rest of the selection where the node is one of several selected.
    pub open spec fn move_targets(self, node: NodeId) -> Seq<NodeId> {
        if self.selected_nodes.contains(node) && self.selected_nodes.len() > 1 {
            seq![node] + self.selected_nodes.filter(not_node(node))
        } else {
            seq![node]
        }
    }

    /// The moves that the response asks for: each node that moves, with
    /// the distance.
    pub open spec fn moves_by<UserResponse, Delta>(
        self,
        response: NodeResponse<UserResponse, NodeData, Delta>,
    ) -> Seq<(NodeId, Delta)> {
        match response {
            NodeResponse::MoveNode { node, drag_delta } => {
                let targets = self.move_targets(node);
                Seq::new(targets.len(), |j: int| (targets[j], drag_delta))
            },
            _ => Seq::empty(),
        }
    }

    /// Whether `events` is what resolving the response in this state brings
    /// about: the report of the deletion for a `DeleteNodeUi`, and nothing
    /// for any other response.
    pub open spec fn derived_by<UserResponse, Delta>(
        self,
        response: NodeResponse<UserResponse, NodeData, Delta>,
        events: Seq<NodeResponse<UserResponse, NodeData, Delta>>,
    ) -> bool {
        match response {
            NodeResponse::DeleteNodeUi(node) => is_delete_report(events, self.graph, node),
            _ => events.len() == 0,
        }
    }

    /// Resolving a response that the state admits keeps the state
    /// well-formed.
    pub proof fn lemma_step_wf<UserResponse, Delta>(
        self,
        response: NodeResponse<UserResponse, NodeData, Delta>,
        additive: bool,
    )
        requires
            self.wf(),
            self.admits(response),
        ensures
            self.step(response, additive).wf(),
    {
        let next = self.step(response, additive);
        match response {
            NodeResponse::ConnectEventEnded { output, input } => {
                assert(next.graph.node_keys() =~= self.graph.node_keys());
                assert(next.graph.input_keys() =~= self.graph.input_keys());
                assert(next.graph.output_keys() =~= self.graph.output_keys());
            },
            NodeResponse::SelectNode(node) => {
                let chosen = self.selection_with(node, additive);
                assert forall|k: int| 0 <= k < chosen.len() implies self.graph.nodes.contains_key(
                    #[trigger] chosen[k],
                ) by {
                    if additive && !self.selected_nodes.contains(node) && k < chosen.len() - 1 {
                        assert(chosen[k] == self.selected_nodes[k]);
                    }
                }
                assert(chosen.no_duplicates()) by {
                    if additive && !self.selected_nodes.contains(node) {
                        assert forall|a: int, b: int|
                            0 <= a < chosen.len() && 0 <= b < chosen.len() && a
                                != b implies chosen[a] != chosen[b] by {
                            if a < self.selected_nodes.len() {
                                assert(self.selected_nodes.contains(chosen[a]));
                            }
                            if b < self.selected_nodes.len() {
                                assert(self.selected_nodes.contains(chosen[b]));
                            }
                        }
                    }
                }
            },
            NodeResponse::DeleteNodeUi(node) => {
                self.graph.lemma_without_node_wf(node);
                lemma_without_node(self.node_order, node);
                lemma_without_node(self.selected_nodes, node);
                assert(next.node_order.to_set() =~= next.graph.nodes.dom());
                assert(next.node_positions.dom() =~= next.graph.nodes.dom());
                assert forall|k: int|
                    0 <= k < next.selected_nodes.len() implies next.graph.nodes.contains_key(
                    #[trigger] next.selected_nodes[k],
                ) by {
                    let n = next.selected_nodes[k];
                    assert(next.selected_nodes.to_set().contains(n));
                    assert(self.selected_nodes.to_set().contains(n));
                    let a = choose|a: int|
                        0 <= a < self.selected_nodes.len() && self.selected_nodes[a] == n;
                    assert(self.graph.nodes.contains_key(self.selected_nodes[a]));
                }
            },
            NodeResponse::DisconnectEvent { output, input } => {
                assert(next.graph.node_keys() =~= self.graph.node_keys());
                assert(next.graph.input_keys() =~= self.graph.input_keys());
                assert(next.graph.output_keys() =~= self.graph.output_keys());
            },
            NodeResponse::RaiseNode(node) => {
                lemma_without_node(self.node_order, node);
                let rest = self.node_order.filter(not_node(node));
                assert(!rest.contains(node)) by {
                    if rest.contains(node) {
                        assert(rest.to_set().contains(node));
                    }
                }
                rest.lemma_push_to_set_commute(node);
                assert(self.node_order.to_set().contains(node));
                assert(next.node_order.to_set() =~= self.node_order.to_set());
                assert forall|a: int, b: int|
                    0 <= a < next.node_order.len() && 0 <= b < next.node_order.len() && a
                        != b implies next.node_order[a] != next.node_order[b] by {
                    if a < rest.len() {
                        assert(rest.contains(next.node_order[a]));
                    }
                    if b < rest.len() {
                        assert(rest.contains(next.node_order[b]));
                    }
                }
            },
            _ => {},
        }
    }
}

/// The moves of the listed nodes by one distance.
pub open spec fn moved_by<Delta>(targets: Seq<NodeId>, delta: Delta) -> Seq<(NodeId, Delta)> {
    Seq::new(targets.len(), |j: int| (targets[j], delta))
}

impl<NodeData, DataType, ValueType, Pos> GraphEditorState<NodeData, DataType, ValueType, Pos> {
    /// Whether the response can be resolved in this state.
    pub fn admits<UserResponse, Delta>(
        &self,
        response: &NodeResponse<UserResponse, NodeData, Delta>,
    ) -> (ok: bool)
        requires
            self.wf(),
        ensures
            ok == self@.admits(*response),
    {
        match response {
            NodeResponse::ConnectEventStarted(_, _) => true,
            NodeResponse::ConnectEventEnded { output, input } => {
                self.graph.try_get_input(*input).is_some() && self.graph.try_get_output(
                    *output,
                ).is_some()
            },
            NodeResponse::CreatedNode(_) => true,
            NodeResponse::SelectNode(node) => self.graph.try_get_node(*node).is_some(),
            NodeResponse::DeleteNodeUi(node) => self.graph.try_get_node(*node).is_some(),
            NodeResponse::DeleteNodeFull { .. } => false,
            NodeResponse::DisconnectEvent { output, .. } => self.graph.try_get_output(
                *output,
            ).is_some(),
            NodeResponse::RaiseNode(node) => position_of(&self.node_order, *node).is_some(),
            NodeResponse::MoveNode { node, .. } => self.node_positions.contains_key(&node.key),
            NodeResponse::User(_) => true,
        }
    }

    /// The nodes that move when `node` is dragged, each with the distance,
    /// added to `moves`.
    fn note_moves<Delta: Copy>(&self, node: NodeId, delta: Delta, moves: &mut Vec<(NodeId, Delta)>)
        requires
            self.wf(),
        ensures
            final(moves)@ == old(moves)@ + moved_by(self@.move_targets(node), delta),
    {
        let ghost start = moves@;
        moves.push((node, delta));
        if position_of(&self.selected_nodes, node).is_some() && self.selected_nodes.len() > 1 {
            let ghost others = not_node(node);
            let mut k: usize = 0;
            proof {
                reveal(Seq::filter);
                assert(self.selected_nodes@.take(0).filter(others) =~= Seq::<NodeId>::empty());
                assert(moves@ =~= start + moved_by(
                    seq![node] + self.selected_nodes@.take(0).filter(others),
                    delta,
                ));
            }
            while k < self.selected_nodes.len()
                invariant
                    k <= self.selected_nodes.len(),
                    others == not_node(node),
                    moves@ == start + moved_by(
                        seq![node] + self.selected_nodes@.take(k as int).filter(others),
                        delta,
                    ),
                decreases self.selected_nodes.len() - k,
            {
                let other = self.selected_nodes[k];
                let ghost before = self.selected_nodes@.take(k as int).filter(others);
                proof {
                    reveal(Seq::filter);
                    assert(self.selected_nodes@.take(k + 1).drop_last()
                        =~= self.selected_nodes@.take(k as int));
                    assert(self.selected_nodes@.take(k + 1).last() == other);
                }
                if other != node {
                    moves.push((other, delta));
                    proof {
                        assert(moves@ =~= start + moved_by(
                            seq![node] + before.push(other),
                            delta,
                        ));
                    }
                }
                k += 1;
            }
            proof {
                assert(self.selected_nodes@.take(self.selected_nodes.len() as int)
                    =~= self.selected_nodes@);
            }
        } else {
            proof {
                assert(moves@ =~= start + moved_by(seq![node], delta));
            }
        }
    }

    /// Resolves one response: changes the state as the response asks, adds
    /// to `derived` what that brought about, and to `moves` the moves that
    /// the host is to make.
    pub fn apply_response<UserResponse, Delta: Copy>(
        &mut self,
        response: &NodeResponse<UserResponse, NodeData, Delta>,
        additive: bool,
        derived: &mut Vec<NodeResponse<UserResponse, NodeData, Delta>>,
        moves: &mut Vec<(NodeId, Delta)>,
    )
        requires
            old(self).wf(),
            old(self)@.admits(*response),
        ensures
            final(self).wf(),
            final(self)@ == old(self)@.step(*response, additive),
            old(derived)@.len() <= final(derived)@.len(),
            final(derived)@.take(old(derived)@.len() as int) == old(derived)@,
            old(self)@.derived_by(*response, final(derived)@.skip(old(derived)@.len() as int)),
            final(moves)@ == old(moves)@ + old(self)@.moves_by(*response),
    {
        let ghost before = self@;
        let ghost listed = derived@;
        let ghost moved = moves@;
        proof {
            before.lemma_step_wf(*response, additive);
            assert(derived@.take(listed.len() as int) =~= listed);
            assert(derived@.skip(listed.len() as int).len() == 0);
            assert(moves@ + Seq::<(NodeId, Delta)>::empty() =~= moves@);
        }
        match response {
            NodeResponse::ConnectEventStarted(node, port) => {
                self.connection_in_progress = Some((*node, *port));
            },
            NodeResponse::ConnectEventEnded { output, input } => {
                self.graph.add_connection(*output, *input);
                proof {
                    assert(self@.graph == before.step(*response, additive).graph);
                }
            },
            NodeResponse::CreatedNode(_) => {},
            NodeResponse::SelectNode(node) => {
                self.select(*node, additive);
            },
            NodeResponse::DeleteNodeUi(node_id) => {
                let (node, links) = self.graph.remove_node(*node_id);
                let mut j: usize = 0;
                while j < links.len()
                    invariant
                        j <= links.len(),
                        derived@.len() == listed.len() + j,
                        derived@.take(listed.len() as int) == listed,
                        forall|a: int|
                            0 <= a < j ==> #[trigger] derived@[listed.len() + a]
                                == (NodeResponse::<UserResponse, NodeData, Delta>::DisconnectEvent {
                                output: links[a].1,
                                input: links[a].0,
                            }),
                    decreases links.len() - j,
                {
                    let ghost sofar = derived@;
                    derived.push(
                        NodeResponse::DisconnectEvent { output: links[j].1, input: links[j].0 },
                    );
                    proof {
                        assert(derived@.take(listed.len() as int) =~= sofar.take(
                            listed.len() as int,
                        ));
                        assert forall|a: int| 0 <= a < j + 1 implies
                            #[trigger] derived@[listed.len()
                            + a] == (NodeResponse::<
                            UserResponse,
                            NodeData,
                            Delta,
                        >::DisconnectEvent { output: links[a].1, input: links[a].0 }) by {
                            if a < j {
                                assert(derived@[listed.len() + a] == sofar[listed.len() + a]);
                            }
                        }
                    }
                    j += 1;
                }
                let ghost sofar = derived@;
                derived.push(NodeResponse::DeleteNodeFull { node_id: *node_id, node });
                self.node_positions.remove(&node_id.key);
                proof {
                    lemma_without_node(self.selected_nodes@, *node_id);
                    lemma_without_node(self.node_order@, *node_id);
                }
                remove_node_id(&mut self.selected_nodes, *node_id);
                remove_node_id(&mut self.node_order, *node_id);
                proof {
                    let next = before.step(*response, additive);
                    assert(self@.node_positions =~= next.node_positions);
                    assert(self@ == next);
                    let events = derived@.skip(listed.len() as int);
                    assert(derived@.take(listed.len() as int) =~= sofar.take(listed.len() as int));
                    assert(events.len() == links.len() + 1);
                    assert(events.last() == derived@[listed.len() + links.len()]);
                    assert forall|a: int| 0 <= a < events.len() - 1 implies
                        #[trigger] events[a] is DisconnectEvent by {
                        assert(events[a] == sofar[listed.len() + a]);
                    }
                    let broken = broken_links(events, events.len() - 1);
                    assert(broken =~= links@) by {
                        assert forall|a: int| 0 <= a < links.len() implies
                            broken[a] == links[a] by {
                            assert(events[a] == sofar[listed.len() + a]);
                        }
                    }
                }
            },
            NodeResponse::DeleteNodeFull { .. } => {},
            NodeResponse::DisconnectEvent { output, input } => {
                let other_node = self.graph.get_output(*output).node;
                self.graph.remove_connection(*input);
                self.connection_in_progress = Some((other_node, AnyParameterId::Output(*output)));
                proof {
                    assert(self@.graph == before.step(*response, additive).graph);
                }
            },
            NodeResponse::RaiseNode(node) => {
                self.raise(*node);
            },
            NodeResponse::MoveNode { node, drag_delta } => {
                self.note_moves(*node, *drag_delta, moves);
                proof {
                    assert(before.moves_by(*response) =~= moved_by(
                        before.move_targets(*node),
                        *drag_delta,
                    ));
                }
            },
            NodeResponse::User(_) => {},
        }
    }
}

/// The outcome of resolving a list of responses.
#[derive(Clone, Debug)]
pub struct Resolution<UserResponse, NodeData, Delta> {
    /// The responses that were given, in that order, and after them what
    /// resolving them brought about.
    pub node_responses: Vec<NodeResponse<UserResponse, NodeData, Delta>>,
    /// The moves that the host is to make: each node that moves, with the
    /// distance.
    pub moves: Vec<(NodeId, Delta)>,
    /// How many of the responses were resolved: all of them, unless the
    /// state did not admit the one at this place.
    pub resolved: usize,
}

impl<NodeData, DataType, ValueType, Pos> EditorView<NodeData, DataType, ValueType, Pos> {
    /// The state after the responses were resolved, one after the other.
    pub open spec fn after<UserResponse, Delta>(
        self,
        responses: Seq<NodeResponse<UserResponse, NodeData, Delta>>,
        additive: bool,
    ) -> Self
        decreases responses.len(),
    {
        if responses.len() == 0 {
            self
        } else {
            self.after(responses.drop_last(), additive).step(responses.last(), additive)
        }
    }

    /// Whether each response is admitted by the state that the responses
    /// before it lead to.
    pub open spec fn resolvable<UserResponse, Delta>(
        self,
        responses: Seq<NodeResponse<UserResponse, NodeData, Delta>>,
        additive: bool,
    ) -> bool
        decreases responses.len(),
    {
        responses.len() == 0 || (self.resolvable(responses.drop_last(), additive) && self.after(
            responses.drop_last(),
            additive,
        ).admits(responses.last()))
    }

    /// The moves that the responses ask for, in their order.
    pub open spec fn all_moves<UserResponse, Delta>(
        self,
        responses: Seq<NodeResponse<UserResponse, NodeData, Delta>>,
        additive: bool,
    ) -> Seq<(NodeId, Delta)>
        decreases responses.len(),
    {
        if responses.len() == 0 {
            Seq::empty()
        } else {
            self.all_moves(responses.drop_last(), additive) + self.after(
                responses.drop_last(),
                additive,
            ).moves_by(responses.last())
        }
    }

    /// Whether `derived` is what resolving the responses brings about: for
    /// each response in turn, what resolving it brings about in the state
    /// that the responses before it lead to.
    pub open spec fn derived_ok<UserResponse, Delta>(
        self,
        responses: Seq<NodeResponse<UserResponse, NodeData, Delta>>,
        additive: bool,
        derived: Seq<NodeResponse<UserResponse, NodeData, Delta>>,
    ) -> bool
        decreases responses.len(),
    {
        if responses.len() == 0 {
            derived.len() == 0
        } else {
            exists|cut: int|
                0 <= cut <= derived.len() && self.derived_ok(
                    responses.drop_last(),
                    additive,
                    #[trigger] derived.take(cut),
                ) && self.after(responses.drop_last(), additive).derived_by(
                    responses.last(),
                    derived.skip(cut),
                )
        }
    }

    /// Only the end of a drag on a port connects: where none of the
    /// responses is a `ConnectEventEnded`, every connection that there is
    /// after they were resolved was there before.
    pub proof fn lemma_only_drops_connect<UserResponse, Delta>(
        self,
        responses: Seq<NodeResponse<UserResponse, NodeData, Delta>>,
        additive: bool,
        input: InputId,
    )
        requires
            forall|k: int| 0 <= k < responses.len()
                ==> !(#[trigger] responses[k] is ConnectEventEnded),
            self.after(responses, additive).graph.connections.contains_key(input),
        ensures
            self.graph.connections.contains_key(input),
            self.after(responses, additive).graph.connections[input]
                == self.graph.connections[input],
        decreases responses.len(),
    {
        if responses.len() > 0 {
            let front = responses.drop_last();
            let mid = self.after(front, additive);
            assert(!(responses[responses.len() - 1] is ConnectEventEnded));
            assert(mid.step(responses.last(), additive).graph.connections.contains_key(input));
            assert(mid.graph.connections.contains_key(input) && mid.step(
                responses.last(),
                additive,
            ).graph.connections[input] == mid.graph.connections[input]);
            assert forall|k: int| 0 <= k < front.len() implies
                !(#[trigger] front[k] is ConnectEventEnded) by {
                assert(front[k] == responses[k]);
            }
            self.lemma_only_drops_connect(front, additive, input);
        }
    }

    /// Resolving responses that are resolvable keeps the state well-formed.
    pub proof fn lemma_after_wf<UserResponse, Delta>(
        self,
        responses: Seq<NodeResponse<UserResponse, NodeData, Delta>>,
        additive: bool,
    )
        requires
            self.wf(),
            self.resolvable(responses, additive),
        ensures
            self.after(responses, additive).wf(),
        decreases responses.len(),
    {
        if responses.len() > 0 {
            self.lemma_after_wf(responses.drop_last(), additive);
            self.after(responses.drop_last(), additive).lemma_step_wf(responses.last(), additive);
        }
    }

    /// Of responses that are resolvable, the first so many are resolvable.
    pub proof fn lemma_resolvable_prefix<UserResponse, Delta>(
        self,
        responses: Seq<NodeResponse<UserResponse, NodeData, Delta>>,
        additive: bool,
        upto: int,
    )
        requires
            self.resolvable(responses, additive),
            0 <= upto <= responses.len(),
        ensures
            self.resolvable(responses.take(upto), additive),
        decreases responses.len(),
    {
        if upto == responses.len() {
            assert(responses.take(upto) =~= responses);
        } else {
            self.lemma_resolvable_prefix(responses.drop_last(), additive, upto);
            assert(responses.drop_last().take(upto) =~= responses.take(upto));
        }
    }

    /// What resolving the responses brings about holds, for each request to
    /// delete a node, the report of that deletion from the graph as it was
    /// when the request was resolved.
    pub proof fn lemma_derived_holds_report<UserResponse, Delta>(
        self,
        responses: Seq<NodeResponse<UserResponse, NodeData, Delta>>,
        additive: bool,
        derived: Seq<NodeResponse<UserResponse, NodeData, Delta>>,
        at: int,
    ) -> (span: (int, int))
        requires
            self.derived_ok(responses, additive, derived),
            0 <= at < responses.len(),
            responses[at] is DeleteNodeUi,
        ensures
            0 <= span.0 < span.1 <= derived.len(),
            is_delete_report(
                derived.subrange(span.0, span.1),
                self.after(responses.take(at), additive).graph,
                responses[at]->DeleteNodeUi_0,
            ),
        decreases responses.len(),
    {
        let front = responses.drop_last();
        let cut = choose|cut: int|
            0 <= cut <= derived.len() && self.derived_ok(
                front,
                additive,
                #[trigger] derived.take(cut),
            ) && self.after(front, additive).derived_by(responses.last(), derived.skip(cut));
        if at == responses.len() - 1 {
            assert(responses.take(at) =~= front);
            assert(derived.subrange(cut, derived.len() as int) =~= derived.skip(cut));
            (cut, derived.len() as int)
        } else {
            let inner = self.lemma_derived_holds_report(front, additive, derived.take(cut), at);
            assert(front.take(at) =~= responses.take(at));
            assert(derived.take(cut).subrange(inner.0, inner.1) =~= derived.subrange(
                inner.0,
                inner.1,
            ));
            inner
        }
    }

    /// When a node is deleted, the break of each of its connections is
    /// reported before the deletion of the node, and both after every
    /// response that was given: in the list of the responses followed by what
    /// resolving them brought about, for each connection that had an end on
    /// the node when the request to delete it was resolved, a disconnect
    /// event of that connection stands after the responses and before the
    /// report that carries the node.
    pub proof fn lemma_disconnects_precede_delete<UserResponse, Delta>(
        self,
        responses: Seq<NodeResponse<UserResponse, NodeData, Delta>>,
        additive: bool,
        derived: Seq<NodeResponse<UserResponse, NodeData, Delta>>,
        at: int,
        input: InputId,
    ) -> (places: (int, int))
        requires
            self.derived_ok(responses, additive, derived),
            0 <= at < responses.len(),
            responses[at] is DeleteNodeUi,
            self.after(responses.take(at), additive).graph.connections.contains_key(input),
            self.after(responses.take(at), additive).graph.touches(
                input,
                responses[at]->DeleteNodeUi_0,
            ),
        ensures
            responses.len() <= places.0 < places.1 < responses.len() + derived.len(),
            (responses + derived)[places.0] == (NodeResponse::<
                UserResponse,
                NodeData,
                Delta,
            >::DisconnectEvent {
                output: self.after(responses.take(at), additive).graph.connections[input],
                input,
            }),
            (responses + derived)[places.1] matches NodeResponse::DeleteNodeFull { node_id, node }
                && node_id == responses[at]->DeleteNodeUi_0 && node@ == self.after(
                responses.take(at),
                additive,
            ).graph.nodes[node_id],
    {
        let graph = self.after(responses.take(at), additive).graph;
        let node = responses[at]->DeleteNodeUi_0;
        let span = self.lemma_derived_holds_report(responses, additive, derived, at);
        let events = derived.subrange(span.0, span.1);
        let broken = broken_links(events, events.len() - 1);
        assert(graph.links_of_node(node).contains_key(input));
        let j = choose|j: int| 0 <= j < broken.len() && (#[trigger] broken[j]).0 == input;
        assert(events[j] is DisconnectEvent);
        assert(graph.links_of_node(node)[broken[j].0] == broken[j].1);
        assert(events[j] == derived[span.0 + j]);
        assert(events.last() == derived[span.1 - 1]);
        (responses.len() + span.0 + j, responses.len() + span.1 - 1)
    }
}

impl<NodeData, DataType, ValueType, Pos> GraphEditorState<NodeData, DataType, ValueType, Pos> {
    /// Resolves the responses in their order, as far as the state admits
    /// them: it stops before the first response that the state it has
    /// reached does not admit. What resolving them brought about is
    /// reported after all the responses that were given, in the order in
    /// which it came about.
    pub fn try_resolve_responses<UserResponse, Delta: Copy>(
        &mut self,
        responses: Vec<NodeResponse<UserResponse, NodeData, Delta>>,
        additive: bool,
    ) -> (done: Resolution<UserResponse, NodeData, Delta>)
        requires
            old(self).wf(),
        ensures
            final(self).wf(),
            done.resolved <= responses.len(),
            old(self)@.resolvable(responses@.take(done.resolved as int), additive),
            done.resolved < responses.len() ==> !old(self)@.after(
                responses@.take(done.resolved as int),
                additive,
            ).admits(responses[done.resolved as int]),
            final(self)@ == old(self)@.after(responses@.take(done.resolved as int), additive),
            done.node_responses@.len() >= responses.len(),
            done.node_responses@.take(responses.len() as int) == responses@,
            old(self)@.derived_ok(
                responses@.take(done.resolved as int),
                additive,
                done.node_responses@.skip(responses.len() as int),
            ),
            done.moves@ == old(self)@.all_moves(responses@.take(done.resolved as int), additive),
    {
        let ghost start = self@;
        let mut derived: Vec<NodeResponse<UserResponse, NodeData, Delta>> = Vec::new();
        let mut moves: Vec<(NodeId, Delta)> = Vec::new();
        let mut k: usize = 0;
        let mut stuck = false;
        proof {
            assert(responses@.take(0).len() == 0);
        }
        while k < responses.len() && !stuck
            invariant
                k <= responses.len(),
                self.wf(),
                start.resolvable(responses@.take(k as int), additive),
                self@ == start.after(responses@.take(k as int), additive),
                start.derived_ok(responses@.take(k as int), additive, derived@),
                moves@ == start.all_moves(responses@.take(k as int), additive),
                stuck ==> k < responses.len() && !self@.admits(responses[k as int]),
            decreases responses.len() - k + (if stuck { 0int } else { 1int }),
        {
            if self.admits(&responses[k]) {
                let ghost before = self@;
                let ghost listed = derived@;
                self.apply_response(&responses[k], additive, &mut derived, &mut moves);
                proof {
                    let longer = responses@.take(k + 1);
                    assert(longer.drop_last() =~= responses@.take(k as int));
                    assert(longer.last() == responses[k as int]);
                    assert(derived@.take(listed.len() as int) == listed);
                }
                k += 1;
            } else {
                stuck = true;
            }
        }
        let mut node_responses = responses;
        let ghost given = node_responses@;
        let ghost brought = derived@;
        node_responses.append(&mut derived);
        proof {
            assert(node_responses@.take(given.len() as int) =~= given);
            assert(node_responses@.skip(given.len() as int) =~= brought);
        }
        Resolution { node_responses, moves, resolved: k }
    }

    /// Resolves the responses in their order, and reports what that
    /// brought about after all of them.
    pub fn resolve_responses<UserResponse, Delta: Copy>(
        &mut self,
        responses: Vec<NodeResponse<UserResponse, NodeData, Delta>>,
        additive: bool,
    ) -> (done: Resolution<UserResponse, NodeData, Delta>)
        requires
            old(self).wf(),
            old(self)@.resolvable(responses@, additive),
        ensures
            final(self).wf(),
            done.resolved == responses.len(),
            final(self)@ == old(self)@.after(responses@, additive),
            done.node_responses@.len() >= responses.len(),
            done.node_responses@.take(responses.len() as int) == responses@,
            old(self)@.derived_ok(
                responses@,
                additive,
                done.node_responses@.skip(responses.len() as int),
            ),
            done.moves@ == old(self)@.all_moves(responses@, additive),
    {
        let ghost given = responses@;
        let done = self.try_resolve_responses(responses, additive);
        proof {
            if done.resolved < given.len() {
                old(self)@.lemma_resolvable_prefix(given, additive, done.resolved + 1);
                assert(given.take(done.resolved + 1).drop_last() =~= given.take(
                    done.resolved as int,
                ));
            }
            assert(given.take(given.len() as int) =~= given);
        }
        done
    }
}

impl<NodeData, DataType, ValueType, Pos> GraphEditorState<NodeData, DataType, ValueType, Pos> {
    /// Creates the node that was chosen from the palette: adds it to the
    /// graph without ports, puts it at `position` and on top of the drawing
    /// order, reports it, and closes the palette.
    pub fn create_node<UserResponse, Delta>(
        &mut self,
        label: String,
        user_data: NodeData,
        position: Pos,
        responses: &mut Vec<NodeResponse<UserResponse, NodeData, Delta>>,
    ) -> (id: NodeId)
        requires
            old(self).wf(),
            old(self)@.graph.nodes.len() < MAX_ITEMS,
        ensures
            final(self).wf(),
            !old(self)@.graph.nodes.contains_key(id),
            final(self)@ == (EditorView {
                graph: GraphView {
                    nodes: old(self)@.graph.nodes.insert(
                        id,
                        NodeView {
                            id,
                            label: label@,
                            inputs: Seq::empty(),
                            outputs: Seq::empty(),
                            user_data,
                        },
                    ),
                    ..old(self)@.graph
                },
                node_order: old(self)@.node_order.push(id),
                node_positions: old(self)@.node_positions.insert(id, position),
                node_finder: None,
                ..old(self)@
            }),
            final(responses)@ == old(responses)@.push(NodeResponse::CreatedNode(id)),
    {
        let id = self.graph.add_node(label, user_data);
        self.node_positions.insert(id.key, position);
        self.node_order.push(id);
        responses.push(NodeResponse::CreatedNode(id));
        self.node_finder = None;
        proof {
            let before = old(self)@;
            assert(self@.node_positions =~= before.node_positions.insert(id, position));
            assert(!before.node_order.contains(id)) by {
                if before.node_order.contains(id) {
                    assert(before.node_order.to_set().contains(id));
                }
            }
            before.node_order.lemma_push_to_set_commute(id);
            assert(self@.node_order.to_set() =~= self@.graph.nodes.dom());
            assert(self@.node_positions.dom() =~= self@.graph.nodes.dom());
            assert forall|a: int, b: int|
                0 <= a < self@.node_order.len() && 0 <= b < self@.node_order.len() && a
                    != b implies self@.node_order[a] != self@.node_order[b] by {
                if a < before.node_order.len() {
                    assert(before.node_order.contains(self@.node_order[a]));
                }
                if b < before.node_order.len() {
                    assert(before.node_order.contains(self@.node_order[b]));
                }
            }
        }
        id
    }
}

impl<NodeData: Clone, DataType: Clone, ValueType: Clone, Pos: Copy> GraphEditorState<
    NodeData,
    DataType,
    ValueType,
    Pos,
> {
    /// Merges the graph of another editor into this one. The copies are put
    /// where the sources stand in the other editor, on top of the drawing
    /// order in the order of the other graph's slots, and become the
    /// selection. Returns each node of the other graph with its copy.
    pub fn merge(&mut self, other: &Self) -> (pairs: Vec<(NodeId, NodeId)>)
        requires
            old(self).wf(),
            other.wf(),
            old(self)@.graph.nodes.len() + other@.graph.nodes.len() <= MAX_ITEMS,
            old(self)@.graph.inputs.len() + other@.graph.inputs.len() <= MAX_ITEMS,
            old(self)@.graph.outputs.len() + other@.graph.outputs.len() <= MAX_ITEMS,
        ensures
            final(self).wf(),
            final(self)@.graph.is_copy(old(self)@.graph, other@.graph, pairs@),
            node_listing(sources(pairs@), other@.graph.nodes.dom()),
            final(self)@.node_order == old(self)@.node_order + copies(pairs@),
            final(self)@.selected_nodes == copies(pairs@),
            forall|n: NodeId|
                old(self)@.graph.nodes.contains_key(n)
                    ==> final(self)@.node_positions[n] == old(self)@.node_positions[n],
            forall|k: int|
                0 <= k < pairs.len() ==> final(self)@.node_positions[(#[trigger] pairs[k]).1]
                    == other@.node_positions[pairs[k].0],
            final(self)@.connection_in_progress == old(self)@.connection_in_progress,
            final(self)@.ongoing_box_selection == old(self)@.ongoing_box_selection,
            final(self)@.node_finder == old(self)@.node_finder,
    {
        let pairs = self.graph.merge(&other.graph);
        self.selected_nodes.clear();
        let ghost before = old(self)@;
        let ghost merged = self@.graph;
        proof {
            assert(copies(pairs@).take(0) =~= Seq::<NodeId>::empty());
            assert(before.node_order + copies(pairs@).take(0) =~= before.node_order);
            assert forall|k: int| 0 <= k < pairs.len() implies other@.node_positions.contains_key(
                (#[trigger] pairs[k]).0,
            ) by {
                assert(other@.graph.nodes.contains_key(pairs[k].0));
            }
        }
        let mut k: usize = 0;
        while k < pairs.len()
            invariant
                k <= pairs.len(),
                self.graph.wf(),
                self@.graph == merged,
                merged.is_copy(before.graph, other@.graph, pairs@),
                before.wf(),
                self@.node_order == before.node_order + copies(pairs@).take(k as int),
                self@.selected_nodes == copies(pairs@).take(k as int),
                forall|n: NodeId|
                    self@.node_positions.contains_key(n) <==> before.graph.nodes.contains_key(n)
                        || copies(pairs@).take(k as int).contains(n),
                forall|n: NodeId|
                    before.graph.nodes.contains_key(n) ==> self@.node_positions[n]
                        == before.node_positions[n],
                forall|a: int|
                    0 <= a < k ==> self@.node_positions[(#[trigger] pairs[a]).1]
                        == other@.node_positions[pairs[a].0],
                forall|a: int|
                    0 <= a < pairs.len() ==> other@.node_positions.contains_key(
                        (#[trigger] pairs[a]).0,
                    ),
                self@.connection_in_progress == before.connection_in_progress,
                self@.ongoing_box_selection == before.ongoing_box_selection,
                self@.node_finder == before.node_finder,
            decreases pairs.len() - k,
        {
            let from = pairs[k].0;
            let to = pairs[k].1;
            let ghost shorter = copies(pairs@).take(k as int);
            let ghost placed = self@.node_positions;
            proof {
                assert(other@.node_positions.contains_key(pairs[k as int].0));
                assert(copies(pairs@).take(k + 1) =~= shorter.push(to));
                assert(copies(pairs@)[k as int] == to);
                assert(!before.graph.nodes.contains_key(pairs[k as int].1));
            }
            let position = *other.node_positions.get(&from.key).unwrap();
            self.node_positions.insert(to.key, position);
            self.node_order.push(to);
            self.selected_nodes.push(to);
            proof {
                assert(self@.node_positions =~= placed.insert(to, position));
                assert(self@.node_order =~= before.node_order + copies(pairs@).take(k + 1));
                assert forall|n: NodeId|
                    self@.node_positions.contains_key(n) <==> before.graph.nodes.contains_key(n)
                        || copies(pairs@).take(k + 1).contains(n) by {
                    let longer = copies(pairs@).take(k + 1);
                    if shorter.contains(n) {
                        let a = choose|a: int| 0 <= a < shorter.len() && shorter[a] == n;
                        assert(longer[a] == n);
                    }
                    if n == to {
                        assert(longer[k as int] == n);
                    }
                    if longer.contains(n) && n != to {
                        let a = choose|a: int| 0 <= a < longer.len() && longer[a] == n;
                        assert(shorter[a] == n);
                    }
                }
                assert forall|a: int| 0 <= a < k + 1 implies
                    self@.node_positions[(#[trigger] pairs[a]).1]
                    == other@.node_positions[pairs[a].0] by {
                    if a < k {
                        assert(copies(pairs@)[a] != copies(pairs@)[k as int]);
                    }
                }
            }
            k += 1;
        }
        proof {
            let made = copies(pairs@);
            assert(made.take(pairs.len() as int) =~= made);
            let now = self@;
            assert forall|n: NodeId| now.graph.nodes.contains_key(n)
                <==> before.graph.nodes.contains_key(
                n,
            ) || made.contains(n) by {
                if made.contains(n) {
                    let a = choose|a: int| 0 <= a < made.len() && made[a] == n;
                    assert(now.graph.node_copied(other@.graph, pairs[a].0, pairs[a].1));
                }
            }
            assert forall|n: NodeId|
                now.node_positions.contains_key(n) == now.graph.nodes.contains_key(n) by {
                assert(now.node_positions.contains_key(n) <==> before.graph.nodes.contains_key(n)
                    || made.take(pairs.len() as int).contains(n));
            }
            assert(now.node_positions.dom() =~= now.graph.nodes.dom());
            assert forall|n: NodeId|
                now.node_order.to_set().contains(n) <==> now.graph.nodes.contains_key(n) by {
                if now.node_order.to_set().contains(n) {
                    let a = choose|a: int| 0 <= a < now.node_order.len() && now.node_order[a] == n;
                    if a < before.node_order.len() {
                        assert(before.node_order.to_set().contains(n));
                    } else {
                        assert(made[a - before.node_order.len()] == n);
                    }
                }
                if before.graph.nodes.contains_key(n) {
                    assert(before.node_order.to_set().contains(n));
                    let a = choose|a: int|
                        0 <= a < before.node_order.len() && before.node_order[a] == n;
                    assert(now.node_order[a] == n);
                }
                if made.contains(n) {
                    let a = choose|a: int| 0 <= a < made.len() && made[a] == n;
                    assert(now.node_order[before.node_order.len() + a] == n);
                }
            }
            assert(now.node_order.to_set() =~= now.graph.nodes.dom());
            assert forall|a: int, b: int|
                0 <= a < now.node_order.len() && 0 <= b < now.node_order.len() && a
                    != b implies now.node_order[a] != now.node_order[b] by {
                let split = before.node_order.len();
                if a < split && b >= split {
                    assert(before.node_order.to_set().contains(now.node_order[a]));
                    assert(made[b - split] == pairs[b - split].1);
                } else if b < split && a >= split {
                    assert(before.node_order.to_set().contains(now.node_order[b]));
                    assert(made[a - split] == pairs[a - split].1);
                } else if a >= split {
                    assert(made[a - split] != made[b - split]);
                }
            }
            assert forall|a: int|
                0 <= a < now.selected_nodes.len() implies now.graph.nodes.contains_key(
                #[trigger] now.selected_nodes[a],
            ) by {
                assert(made.contains(made[a]));
            }
        }
        pairs
    }

    /// The selected part of the editor as an editor of its own: the
    /// selected nodes with their ports and the connections between them,
    /// under the same identities, in the same drawing order and at the same
    /// positions. Nothing is selected in it and nothing is under way.
    pub fn from_selected(&self) -> (part: Self)
        requires
            self.wf(),
        ensures
            part.wf(),
            part@.graph.replicates(self@.graph.restricted_to(self@.selected_nodes.to_set())),
            part@.node_order == self@.node_order.filter(is_node_of(part@.graph)),
            part@.node_positions == self@.node_positions.restrict(part@.graph.nodes.dom()),
            part@.selected_nodes.len() == 0,
            part@.connection_in_progress is None,
            part@.ongoing_box_selection is None,
            part@.node_finder is None,
    {
        let graph = self.graph.from_nodes(&self.selected_nodes);
        let ghost kept = is_node_of(graph@);
        let mut node_order: Vec<NodeId> = Vec::new();
        let mut node_positions: HashMap<u64, Pos> = HashMap::new();
        proof {
            reveal(Seq::filter);
            assert(self@.node_order.take(0).filter(kept) =~= Seq::<NodeId>::empty());
            assert forall|n: NodeId| graph@.nodes.contains_key(n) implies
                self@.graph.nodes.contains_key(
                n,
            ) by {
                assert(self@.graph.restricted_to(self@.selected_nodes.to_set()).nodes.contains_key(
                    n,
                ));
            }
        }
        let mut k: usize = 0;
        while k < self.node_order.len()
            invariant
                k <= self.node_order.len(),
                self.wf(),
                kept == is_node_of(graph@),
                forall|n: NodeId|
                    graph@.nodes.contains_key(n) ==> self@.graph.nodes.contains_key(n),
                node_order@ == self@.node_order.take(k as int).filter(kept),
                forall|n: NodeId|
                    node_order@.contains(n) <==> self@.node_order.take(k as int).contains(n)
                        && graph@.nodes.contains_key(n),
                node_order@.no_duplicates(),
                forall|key: u64|
                    node_positions@.contains_key(key) <==> node_order@.contains(NodeId { key }),
                forall|key: u64|
                    node_positions@.contains_key(key) ==> node_positions@[key]
                        == self.node_positions@[key],
            decreases self.node_order.len() - k,
        {
            let id = self.node_order[k];
            let ghost listed = node_order@;
            let ghost shorter = self@.node_order.take(k as int);
            let ghost longer = self@.node_order.take(k + 1);
            proof {
                reveal(Seq::filter);
                assert(longer.drop_last() =~= shorter);
                assert(longer.last() == id);
                assert(self@.node_order.to_set().contains(id));
                assert(self@.node_positions.contains_key(id));
                assert(!shorter.contains(id)) by {
                    if shorter.contains(id) {
                        let a = choose|a: int| 0 <= a < shorter.len() && shorter[a] == id;
                        assert(self@.node_order[a] == self@.node_order[k as int]);
                    }
                }
            }
            if graph.try_get_node(id).is_some() {
                let position = *self.node_positions.get(&id.key).unwrap();
                node_order.push(id);
                node_positions.insert(id.key, position);
            }
            proof {
                assert forall|n: NodeId|
                    node_order@.contains(n) <==> longer.contains(n) && graph@.nodes.contains_key(
                        n,
                    ) by {
                    if listed.contains(n) {
                        let a = choose|a: int| 0 <= a < listed.len() && listed[a] == n;
                        assert(node_order@[a] == n);
                    }
                    if shorter.contains(n) {
                        let a = choose|a: int| 0 <= a < shorter.len() && shorter[a] == n;
                        assert(longer[a] == n);
                    }
                    if n == id {
                        assert(longer[k as int] == n);
                        if graph@.nodes.contains_key(n) {
                            assert(node_order@[listed.len() as int] == n);
                        }
                    }
                    if longer.contains(n) && n != id {
                        let a = choose|a: int| 0 <= a < longer.len() && longer[a] == n;
                        assert(shorter[a] == n);
                    }
                    if node_order@.contains(n) && !listed.contains(n) {
                        let a = choose|a: int| 0 <= a < node_order@.len() && node_order@[a] == n;
                        if a < listed.len() {
                            assert(listed[a] == n);
                        }
                    }
                }
                assert forall|key: u64|
                    node_positions@.contains_key(key) <==> node_order@.contains(
                        NodeId { key },
                    ) by {
                    let n = NodeId { key };
                    assert(listed.contains(n) <==> shorter.contains(n) && graph@.nodes.contains_key(
                        n,
                    ));
                    assert(node_order@.contains(n) <==> longer.contains(n)
                        && graph@.nodes.contains_key(n));
                    if key == id.key {
                        assert(n == id);
                    }
                }
            }
            k += 1;
        }
        let part = GraphEditorState {
            graph,
            node_order,
            connection_in_progress: None,
            selected_nodes: Vec::new(),
            ongoing_box_selection: None,
            node_positions,
            node_finder: None,
        };
        proof {
            assert(self@.node_order.take(self.node_order.len() as int) =~= self@.node_order);
            assert forall|n: NodeId|
                part@.node_order.to_set().contains(n) <==> part@.graph.nodes.contains_key(n) by {
                if part@.graph.nodes.contains_key(n) {
                    assert(self@.node_order.to_set().contains(n));
                }
            }
            assert(part@.node_order.to_set() =~= part@.graph.nodes.dom());
            assert(part@.node_positions =~= self@.node_positions.restrict(
                part@.graph.nodes.dom(),
            ));
            assert(part@.node_positions.dom() =~= part@.graph.nodes.dom());
        }
        part
    }
}

/// The outcome of one pass over the editor.
#[derive(Clone, Debug)]
pub struct PassOutcome<UserResponse, NodeData, Delta> {
    /// What the pass reports to the host.
    pub response: GraphResponse<UserResponse, NodeData, Delta>,
    /// The moves that the host is to make: each node that moves, with the
    /// distance.
    pub moves: Vec<(NodeId, Delta)>,
    /// How many of the responses were resolved: all of them, unless the
    /// state did not admit the one at this place.
    pub resolved: usize,
    /// Whether the palette was opened.
    pub palette_opened: bool,
}

impl<NodeData, DataType, ValueType, Pos> EditorView<NodeData, DataType, ValueType, Pos> {
    /// The state at the end of a pass in which all responses were resolved:
    /// after the responses, the box selection that is under way takes the
    /// nodes that it hits, and then the pointer and the keys are attended
    /// to.
    pub open spec fn after_whole_pass<UserResponse, Delta>(
        self,
        responses: Seq<NodeResponse<UserResponse, NodeData, Delta>>,
        hits: Seq<NodeId>,
        input: PointerState<Pos>,
    ) -> Self {
        let resolved = self.after(responses, input.shift_pressed);
        let boxed = if resolved.ongoing_box_selection is Some {
            EditorView {
                selected_nodes: resolved.selection_with_hits(hits, input.shift_pressed),
                ..resolved
            }
        } else {
            resolved
        };
        boxed.after_pass(input)
    }
}

impl<NodeData, DataType, ValueType, Pos: Copy> GraphEditorState<
    NodeData,
    DataType,
    ValueType,
    Pos,
> {
    /// Ends a pass over the editor: resolves the responses that were
    /// collected, in their order; then lets the box selection that is under
    /// way take the nodes that it hits; then attends to the pointer and the
    /// keys. Where the state does not admit a response, the pass stops
    /// before it and nothing further is done.
    pub fn resolve_pass<UserResponse, Delta: Copy>(
        &mut self,
        responses: Vec<NodeResponse<UserResponse, NodeData, Delta>>,
        hits: &Vec<NodeId>,
        input: &PointerState<Pos>,
    ) -> (outcome: PassOutcome<UserResponse, NodeData, Delta>)
        requires
            old(self).wf(),
        ensures
            final(self).wf(),
            outcome.resolved <= responses.len(),
            old(self)@.resolvable(responses@.take(outcome.resolved as int), input.shift_pressed),
            outcome.resolved < responses.len() ==> !old(self)@.after(
                responses@.take(outcome.resolved as int),
                input.shift_pressed,
            ).admits(responses[outcome.resolved as int]),
            outcome.resolved < responses.len() ==> final(self)@ == old(self)@.after(
                responses@.take(outcome.resolved as int),
                input.shift_pressed,
            ) && !outcome.palette_opened,
            outcome.resolved == responses.len() ==> final(self)@ == old(self)@.after_whole_pass(
                responses@,
                hits@,
                *input,
            ) && outcome.palette_opened == palette_opens(
                *input,
                input.cursor_in_editor && !input.cursor_in_finder,
            ),
            outcome.response.node_responses@.len() >= responses.len(),
            outcome.response.node_responses@.take(responses.len() as int) == responses@,
            old(self)@.derived_ok(
                responses@.take(outcome.resolved as int),
                input.shift_pressed,
                outcome.response.node_responses@.skip(responses.len() as int),
            ),
            outcome.moves@ == old(self)@.all_moves(
                responses@.take(outcome.resolved as int),
                input.shift_pressed,
            ),
            outcome.response.cursor_in_editor == input.cursor_in_editor,
            outcome.response.cursor_in_finder == input.cursor_in_finder,
    {
        let given = responses.len();
        let ghost listed = responses@;
        let done = self.try_resolve_responses(responses, input.shift_pressed);
        let mut palette_opened = false;
        if done.resolved == given {
            proof {
                assert(listed.take(given as int) =~= listed);
            }
            if self.ongoing_box_selection.is_some() {
                self.box_select(hits, input.shift_pressed);
            }
            palette_opened = self.finish_pass(input);
        }
        PassOutcome {
            response: GraphResponse {
                node_responses: done.node_responses,
                cursor_in_editor: input.cursor_in_editor,
                cursor_in_finder: input.cursor_in_finder,
            },
            moves: done.moves,
            resolved: done.resolved,
            palette_opened,
        }
    }
}

} // verus!

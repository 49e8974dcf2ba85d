//! The graph: nodes, their ports and the connections between ports, with the
//! mathematical model that the contracts of the operations speak of.

use crate::arena::live_key_set;
use crate::arena::slot_index;
use crate::id_type::AnyParameterId;
use crate::id_type::InputId;
use crate::id_type::NodeId;
use crate::id_type::OutputId;
use vstd::prelude::*;

verus! {

/// How many items of one kind a graph can hold: the keys that one arena can
/// have live at a time.
pub const MAX_ITEMS: u64 = 0xffff_fffe;

/// Whether an input port takes a connection, a constant edited in place, or
/// either.
#[derive(Clone, Copy, Debug, PartialEq, Eq, Structural)]
pub enum InputParamKind {
    /// The value comes from a connection only.
    ConnectionOnly,
    /// The value is a constant only; the port is not drawn.
    ConstantOnly,
    /// A connection, or the constant while there is none.
    ConnectionOrConstant,
}

/// A node: a label, its ports in drawing order, and the user's payload.
#[derive(Debug)]
pub struct Node<NodeData> {
    pub id: NodeId,
    pub label: String,
    pub inputs: Vec<(String, InputId)>,
    pub outputs: Vec<(String, OutputId)>,
    pub user_data: NodeData,
}

/// An input port.
#[derive(Debug)]
pub struct InputParam<DataType, ValueType> {
    pub id: InputId,
    /// The data type of the port; only equal types connect.
    pub typ: DataType,
    /// The constant that stands in while nothing is connected.
    pub value: ValueType,
    pub kind: InputParamKind,
    /// The node that owns the port.
    pub node: NodeId,
    /// Whether the port is drawn inside the node.
    pub shown_inline: bool,
}

/// An output port.
#[derive(Debug)]
pub struct OutputParam<DataType> {
    pub id: OutputId,
    /// The node that owns the port.
    pub node: NodeId,
    pub typ: DataType,
}

/// Why a lookup failed.
#[derive(Debug)]
pub enum EguiGraphError {
    /// The node has no port of that name.
    NoParameterNamed(NodeId, String),
    /// No port of the graph has that identity.
    InvalidParameterId(AnyParameterId),
}

impl<DataType: Clone, ValueType: Clone> Clone for InputParam<DataType, ValueType> {
    fn clone(&self) -> (copy: Self)
        ensures
            copy.id == self.id,
            copy.node == self.node,
            copy.kind == self.kind,
            copy.shown_inline == self.shown_inline,
            cloned(self.typ, copy.typ),
            cloned(self.value, copy.value),
    {
        InputParam {
            id: self.id,
            typ: self.typ.clone(),
            value: self.value.clone(),
            kind: self.kind,
            node: self.node,
            shown_inline: self.shown_inline,
        }
    }
}

impl<DataType: Clone> Clone for OutputParam<DataType> {
    fn clone(&self) -> (copy: Self)
        ensures
            copy.id == self.id,
            copy.node == self.node,
            cloned(self.typ, copy.typ),
    {
        OutputParam { id: self.id, node: self.node, typ: self.typ.clone() }
    }
}

/// A copy of a list of named input ports.
fn clone_inputs(ports: &Vec<(String, InputId)>) -> (copy: Vec<(String, InputId)>)
    ensures
        named_ports(copy@) == named_ports(ports@),
{
    let mut copy: Vec<(String, InputId)> = Vec::new();
    let mut j: usize = 0;
    while j < ports.len()
        invariant
            j <= ports.len(),
            copy.len() == j,
            forall|a: int| 0 <= a < j ==> copy[a].0@ == ports[a].0@ && copy[a].1 == ports[a].1,
        decreases ports.len() - j,
    {
        copy.push((ports[j].0.clone(), ports[j].1));
        j += 1;
    }
    assert(named_ports(copy@) =~= named_ports(ports@));
    copy
}

/// A copy of a list of named output ports.
fn clone_outputs(ports: &Vec<(String, OutputId)>) -> (copy: Vec<(String, OutputId)>)
    ensures
        named_ports(copy@) == named_ports(ports@),
{
    let mut copy: Vec<(String, OutputId)> = Vec::new();
    let mut j: usize = 0;
    while j < ports.len()
        invariant
            j <= ports.len(),
            copy.len() == j,
            forall|a: int| 0 <= a < j ==> copy[a].0@ == ports[a].0@ && copy[a].1 == ports[a].1,
        decreases ports.len() - j,
    {
        copy.push((ports[j].0.clone(), ports[j].1));
        j += 1;
    }
    assert(named_ports(copy@) =~= named_ports(ports@));
    copy
}

impl<NodeData: Clone> Clone for Node<NodeData> {
    fn clone(&self) -> (copy: Self)
        ensures
            copy@.id == self@.id,
            copy@.label == self@.label,
            copy@.inputs == self@.inputs,
            copy@.outputs == self@.outputs,
            cloned(self.user_data, copy.user_data),
    {
        Node {
            id: self.id,
            label: self.label.clone(),
            inputs: clone_inputs(&self.inputs),
            outputs: clone_outputs(&self.outputs),
            user_data: self.user_data.clone(),
        }
    }
}

impl<DataType, ValueType> InputParam<DataType, ValueType> {
    /// Whether the port takes a connection, a constant, or either.
    pub fn kind(&self) -> (kind: InputParamKind)
        ensures
            kind == self.kind,
    {
        self.kind
    }
}

/// A node as the contracts see it: strings and lists by their contents.
pub struct NodeView<NodeData> {
    pub id: NodeId,
    pub label: Seq<char>,
    pub inputs: Seq<(Seq<char>, InputId)>,
    pub outputs: Seq<(Seq<char>, OutputId)>,
    pub user_data: NodeData,
}

/// The test that a named port passes unless it is the given one.
pub open spec fn other_than<Id>(id: Id) -> spec_fn((Seq<char>, Id)) -> bool {
    |e: (Seq<char>, Id)| e.1 != id
}

/// Whether a port of the list has the name.
pub open spec fn has_named<Id>(ports: Seq<(Seq<char>, Id)>, name: Seq<char>) -> bool {
    exists|j: int| 0 <= j < ports.len() && (#[trigger] ports[j]).0 == name
}

/// Whether `at` is the place of the first port of the list that has the name.
pub open spec fn first_named<Id>(ports: Seq<(Seq<char>, Id)>, name: Seq<char>, at: int) -> bool {
    &&& 0 <= at < ports.len()
    &&& ports[at].0 == name
    &&& forall|j: int| 0 <= j < at ==> (#[trigger] ports[j]).0 != name
}

/// Whether the error says that the node has no port of the name.
pub open spec fn no_parameter_named(error: EguiGraphError, node: NodeId, name: Seq<char>) -> bool {
    match error {
        EguiGraphError::NoParameterNamed(n, s) => n == node && s@ == name,
        EguiGraphError::InvalidParameterId(_) => false,
    }
}

/// A list of named ports by its contents.
pub open spec fn named_ports<Id>(ports: Seq<(String, Id)>) -> Seq<(Seq<char>, Id)> {
    Seq::new(ports.len(), |j: int| (ports[j].0@, ports[j].1))
}

impl<NodeData> View for Node<NodeData> {
    type V = NodeView<NodeData>;

    open spec fn view(&self) -> NodeView<NodeData> {
        NodeView {
            id: self.id,
            label: self.label@,
            inputs: named_ports(self.inputs@),
            outputs: named_ports(self.outputs@),
            user_data: self.user_data,
        }
    }
}

impl<NodeData> NodeView<NodeData> {
    /// The input ports of the node, in drawing order.
    pub open spec fn input_ids(self) -> Seq<InputId> {
        Seq::new(self.inputs.len(), |j: int| self.inputs[j].1)
    }

    /// The output ports of the node, in drawing order.
    pub open spec fn output_ids(self) -> Seq<OutputId> {
        Seq::new(self.outputs.len(), |j: int| self.outputs[j].1)
    }

    /// The node with one more input port at the end.
    pub open spec fn with_input(self, name: Seq<char>, id: InputId) -> Self {
        NodeView { inputs: self.inputs.push((name, id)), ..self }
    }

    /// The node without the input port.
    pub open spec fn without_input(self, id: InputId) -> Self {
        NodeView { inputs: self.inputs.filter(other_than(id)), ..self }
    }

    /// The node without the output port.
    pub open spec fn without_output(self, id: OutputId) -> Self {
        NodeView { outputs: self.outputs.filter(other_than(id)), ..self }
    }

    /// The node with one more output port at the end.
    pub open spec fn with_output(self, name: Seq<char>, id: OutputId) -> Self {
        NodeView { outputs: self.outputs.push((name, id)), ..self }
    }
}

/// Filtering out the one element that fails the test removes it.
pub proof fn lemma_filter_removes_one<A>(s: Seq<A>, pred: spec_fn(A) -> bool, at: int)
    requires
        0 <= at < s.len(),
        !pred(s[at]),
        forall|j: int| 0 <= j < s.len() && j != at ==> pred(s[j]),
    ensures
        s.filter(pred) == s.remove(at),
    decreases s.len(),
{
    reveal(Seq::filter);
    let front = s.drop_last();
    if at == s.len() - 1 {
        lemma_filter_keeps_all(front, pred);
        assert(s.remove(at) =~= front);
    } else {
        lemma_filter_removes_one(front, pred, at);
        assert(s.remove(at) =~= front.remove(at).push(s.last()));
    }
}

/// Filtering keeps a sequence whose elements all pass the test.
pub proof fn lemma_filter_keeps_all<A>(s: Seq<A>, pred: spec_fn(A) -> bool)
    requires
        forall|j: int| 0 <= j < s.len() ==> pred(s[j]),
    ensures
        s.filter(pred) == s,
    decreases s.len(),
{
    reveal(Seq::filter);
    if s.len() > 0 {
        lemma_filter_keeps_all(s.drop_last(), pred);
        assert(s.drop_last().push(s.last()) =~= s);
    }
}

/// `ids` lists each node of the set once, in the order of their slots.
pub open spec fn node_listing(ids: Seq<NodeId>, nodes: Set<NodeId>) -> bool {
    &&& ids.to_set() == nodes
    &&& forall|a: int, b: int|
        0 <= a < b < ids.len() ==> slot_index((#[trigger] ids[a]).key) < slot_index(
            (#[trigger] ids[b]).key,
        )
}

/// `links` lists each connection of the map once, in the order of the
/// inputs' slots.
pub open spec fn link_listing(
    links: Seq<(InputId, OutputId)>,
    connections: Map<InputId, OutputId>,
) -> bool {
    &&& forall|j: int|
        0 <= j < links.len() ==> connections.contains_key((#[trigger] links[j]).0)
            && connections[links[j].0] == links[j].1
    &&& forall|i: InputId|
        connections.contains_key(i) ==> exists|j: int|
            0 <= j < links.len() && (#[trigger] links[j]).0 == i
    &&& forall|a: int, b: int|
        0 <= a < b < links.len() ==> slot_index((#[trigger] links[a]).0.key) < slot_index(
            (#[trigger] links[b]).0.key,
        )
}

/// A listing of connections names each input once: no input is connected
/// to more than one output.
pub proof fn lemma_one_link_per_input(
    links: Seq<(InputId, OutputId)>,
    connections: Map<InputId, OutputId>,
    a: int,
    b: int,
)
    requires
        link_listing(links, connections),
        0 <= a < links.len(),
        0 <= b < links.len(),
        links[a].0 == links[b].0,
    ensures
        a == b,
        links[a].1 == links[b].1,
{
    if a < b {
        assert(slot_index(links[a].0.key) < slot_index(links[b].0.key));
    } else if b < a {
        assert(slot_index(links[b].0.key) < slot_index(links[a].0.key));
    }
}

/// The inputs of the listed connections.
pub open spec fn link_inputs(links: Seq<(InputId, OutputId)>) -> Set<InputId> {
    Set::new(|i: InputId| exists|j: int| 0 <= j < links.len() && (#[trigger] links[j]).0 == i)
}

/// The graph as the contracts see it.
pub struct GraphView<NodeData, DataType, ValueType> {
    pub nodes: Map<NodeId, NodeView<NodeData>>,
    pub inputs: Map<InputId, InputParam<DataType, ValueType>>,
    pub outputs: Map<OutputId, OutputParam<DataType>>,
    /// For each connected input, the output that drives it.
    pub connections: Map<InputId, OutputId>,
}

impl<NodeData, DataType, ValueType> GraphView<NodeData, DataType, ValueType> {
    /// The keys of the nodes.
    pub open spec fn node_keys(self) -> Set<u64> {
        Set::new(|k: u64| self.nodes.contains_key(NodeId { key: k }))
    }

    /// The keys of the input ports.
    pub open spec fn input_keys(self) -> Set<u64> {
        Set::new(|k: u64| self.inputs.contains_key(InputId { key: k }))
    }

    /// The keys of the output ports.
    pub open spec fn output_keys(self) -> Set<u64> {
        Set::new(|k: u64| self.outputs.contains_key(OutputId { key: k }))
    }

    /// Every node is stored under its own identity, and each port that it
    /// lists exists, belongs to it, and is listed once.
    pub open spec fn nodes_wf(self) -> bool {
        &&& forall|n: NodeId| self.nodes.contains_key(n) ==> (#[trigger] self.nodes[n]).id == n
        &&& forall|n: NodeId, j: int|
            self.nodes.contains_key(n) && 0 <= j < self.nodes[n].inputs.len() ==> {
                let p = #[trigger] self.nodes[n].inputs[j].1;
                self.inputs.contains_key(p) && self.inputs[p].node == n
            }
        &&& forall|n: NodeId, j: int|
            self.nodes.contains_key(n) && 0 <= j < self.nodes[n].outputs.len() ==> {
                let p = #[trigger] self.nodes[n].outputs[j].1;
                self.outputs.contains_key(p) && self.outputs[p].node == n
            }
        &&& forall|n: NodeId|
            self.nodes.contains_key(n) ==> (#[trigger] self.nodes[n]).input_ids().no_duplicates()
        &&& forall|n: NodeId|
            self.nodes.contains_key(n) ==> (#[trigger] self.nodes[n]).output_ids().no_duplicates()
    }

    /// Every port is stored under its own identity, and its owner exists and
    /// lists it.
    pub open spec fn ports_wf(self) -> bool {
        &&& forall|p: InputId|
            self.inputs.contains_key(p) ==> {
                let port = #[trigger] self.inputs[p];
                &&& port.id == p
                &&& self.nodes.contains_key(port.node)
                &&& self.nodes[port.node].input_ids().contains(p)
            }
        &&& forall|p: OutputId|
            self.outputs.contains_key(p) ==> {
                let port = #[trigger] self.outputs[p];
                &&& port.id == p
                &&& self.nodes.contains_key(port.node)
                &&& self.nodes[port.node].output_ids().contains(p)
            }
    }

    /// Both ends of every connection exist.
    pub open spec fn connections_wf(self) -> bool {
        forall|i: InputId| #[trigger]
            self.connections.contains_key(i) ==> self.inputs.contains_key(i)
                && self.outputs.contains_key(self.connections[i])
    }

    /// Referential integrity: no identity in the graph dangles.
    pub open spec fn wf(self) -> bool {
        &&& self.nodes.dom().finite()
        &&& self.inputs.dom().finite()
        &&& self.outputs.dom().finite()
        &&& live_key_set(self.node_keys())
        &&& live_key_set(self.input_keys())
        &&& live_key_set(self.output_keys())
        &&& self.nodes_wf()
        &&& self.ports_wf()
        &&& self.connections_wf()
    }

    /// A new input port on a node keeps the graph well-formed.
    pub proof fn lemma_with_input_wf(self, after: Self, node: NodeId, name: Seq<char>, id: InputId)
        requires
            self.wf(),
            self.nodes.contains_key(node),
            !self.inputs.contains_key(id),
            after.nodes == self.nodes.insert(node, self.nodes[node].with_input(name, id)),
            after.inputs.dom() == self.inputs.dom().insert(id),
            after.inputs[id].id == id,
            after.inputs[id].node == node,
            forall|p: InputId| self.inputs.contains_key(p) ==> after.inputs[p] == self.inputs[p],
            after.outputs == self.outputs,
            after.connections == self.connections,
            live_key_set(after.input_keys()),
        ensures
            after.wf(),
    {
        let grown = self.nodes[node].with_input(name, id);
        assert(after.node_keys() =~= self.node_keys());
        assert(after.output_keys() =~= self.output_keys());
        assert forall|n: NodeId, j: int|
            after.nodes.contains_key(n) && 0 <= j < after.nodes[n].inputs.len() implies {
            let p = #[trigger] after.nodes[n].inputs[j].1;
            after.inputs.contains_key(p) && after.inputs[p].node == n
        } by {
            if n == node && j < self.nodes[node].inputs.len() {
                assert(grown.inputs[j] == self.nodes[node].inputs[j]);
            } else if n != node {
                assert(after.nodes[n] == self.nodes[n]);
            }
        }
        assert forall|n: NodeId| after.nodes.contains_key(n) implies (#[trigger] after.nodes[
            n
        ]).input_ids().no_duplicates() by {
            if n == node {
                let before_ids = self.nodes[node].input_ids();
                assert(grown.input_ids() =~= before_ids.push(id));
                assert forall|j: int| 0 <= j < before_ids.len() implies before_ids[j] != id by {
                    assert(self.inputs.contains_key(self.nodes[node].inputs[j].1));
                }
            } else {
                assert(after.nodes[n] == self.nodes[n]);
            }
        }
        assert forall|p: InputId| after.inputs.contains_key(p) implies {
            let port = #[trigger] after.inputs[p];
            &&& port.id == p
            &&& after.nodes.contains_key(port.node)
            &&& after.nodes[port.node].input_ids().contains(p)
        } by {
            if p == id {
                assert(grown.input_ids()[self.nodes[node].inputs.len() as int] == id);
            } else {
                let owner = self.inputs[p].node;
                let j = choose|j: int|
                    0 <= j < self.nodes[owner].input_ids().len() && self.nodes[owner].input_ids()[j]
                        == p;
                assert(after.nodes[owner].input_ids()[j] == p);
            }
        }
        assert forall|p: OutputId| after.outputs.contains_key(p) implies {
            let port = #[trigger] after.outputs[p];
            &&& port.id == p
            &&& after.nodes.contains_key(port.node)
            &&& after.nodes[port.node].output_ids().contains(p)
        } by {
            let owner = self.outputs[p].node;
            assert(after.nodes[owner].output_ids() =~= self.nodes[owner].output_ids());
        }
        assert forall|n: NodeId| after.nodes.contains_key(n) implies (#[trigger] after.nodes[
            n
        ]).output_ids().no_duplicates() by {
            assert(after.nodes[n].output_ids() =~= self.nodes[n].output_ids());
        }
    }

    /// A new input port on a node keeps the graph well-formed.
    pub proof fn lemma_with_output_wf(
        self,
        after: Self,
        node: NodeId,
        name: Seq<char>,
        id: OutputId,
    )
        requires
            self.wf(),
            self.nodes.contains_key(node),
            !self.outputs.contains_key(id),
            after.nodes == self.nodes.insert(node, self.nodes[node].with_output(name, id)),
            after.outputs.dom() == self.outputs.dom().insert(id),
            after.outputs[id].id == id,
            after.outputs[id].node == node,
            forall|p: OutputId| self.outputs.contains_key(p)
                ==> after.outputs[p] == self.outputs[p],
            after.inputs == self.inputs,
            after.connections == self.connections,
            live_key_set(after.output_keys()),
        ensures
            after.wf(),
    {
        let grown = self.nodes[node].with_output(name, id);
        assert(after.node_keys() =~= self.node_keys());
        assert(after.input_keys() =~= self.input_keys());
        assert forall|n: NodeId, j: int|
            after.nodes.contains_key(n) && 0 <= j < after.nodes[n].outputs.len() implies {
            let p = #[trigger] after.nodes[n].outputs[j].1;
            after.outputs.contains_key(p) && after.outputs[p].node == n
        } by {
            if n == node && j < self.nodes[node].outputs.len() {
                assert(grown.outputs[j] == self.nodes[node].outputs[j]);
            } else if n != node {
                assert(after.nodes[n] == self.nodes[n]);
            }
        }
        assert forall|n: NodeId| after.nodes.contains_key(n) implies (#[trigger] after.nodes[
            n
        ]).output_ids().no_duplicates() by {
            if n == node {
                let before_ids = self.nodes[node].output_ids();
                assert(grown.output_ids() =~= before_ids.push(id));
                assert forall|j: int| 0 <= j < before_ids.len() implies before_ids[j] != id by {
                    assert(self.outputs.contains_key(self.nodes[node].outputs[j].1));
                }
            } else {
                assert(after.nodes[n] == self.nodes[n]);
            }
        }
        assert forall|p: OutputId| after.outputs.contains_key(p) implies {
            let port = #[trigger] after.outputs[p];
            &&& port.id == p
            &&& after.nodes.contains_key(port.node)
            &&& after.nodes[port.node].output_ids().contains(p)
        } by {
            if p == id {
                assert(grown.output_ids()[self.nodes[node].outputs.len() as int] == id);
            } else {
                let owner = self.outputs[p].node;
                let j = choose|j: int|
                    0 <= j < self.nodes[owner].output_ids().len()
                        && self.nodes[owner].output_ids()[j]
                        == p;
                assert(after.nodes[owner].output_ids()[j] == p);
            }
        }
        assert forall|p: InputId| after.inputs.contains_key(p) implies {
            let port = #[trigger] after.inputs[p];
            &&& port.id == p
            &&& after.nodes.contains_key(port.node)
            &&& after.nodes[port.node].input_ids().contains(p)
        } by {
            let owner = self.inputs[p].node;
            assert(after.nodes[owner].input_ids() =~= self.nodes[owner].input_ids());
        }
        assert forall|n: NodeId| after.nodes.contains_key(n) implies (#[trigger] after.nodes[
            n
        ]).input_ids().no_duplicates() by {
            assert(after.nodes[n].input_ids() =~= self.nodes[n].input_ids());
        }
    }

    /// The graph without the input port: it leaves its node's list, and the
    /// connection into it goes.
    pub open spec fn without_input(self, id: InputId) -> Self {
        let owner = self.inputs[id].node;
        GraphView {
            nodes: self.nodes.insert(owner, self.nodes[owner].without_input(id)),
            inputs: self.inputs.remove(id),
            outputs: self.outputs,
            connections: self.connections.remove(id),
        }
    }

    /// The connections that the output drives.
    pub open spec fn links_of_output(self, id: OutputId) -> Map<InputId, OutputId> {
        Map::new(
            |i: InputId| self.connections.contains_key(i) && self.connections[i] == id,
            |i: InputId| self.connections[i],
        )
    }

    /// The graph without the output port: it leaves its node's list, and
    /// every connection that it drives goes.
    pub open spec fn without_output(self, id: OutputId) -> Self {
        let owner = self.outputs[id].node;
        GraphView {
            nodes: self.nodes.insert(owner, self.nodes[owner].without_output(id)),
            inputs: self.inputs,
            outputs: self.outputs.remove(id),
            connections: self.connections.remove_keys(self.links_of_output(id).dom()),
        }
    }

    /// The connections that have an end on a port of the node.
    pub open spec fn links_of_node(self, node: NodeId) -> Map<InputId, OutputId> {
        Map::new(
            |i: InputId| self.connections.contains_key(i) && self.touches(i, node),
            |i: InputId| self.connections[i],
        )
    }

    /// The graph without the node: its ports go with it, and so does every
    /// connection that has an end on one of them.
    pub open spec fn without_node(self, node: NodeId) -> Self {
        GraphView {
            nodes: self.nodes.remove(node),
            inputs: Map::new(
                |p: InputId| self.inputs.contains_key(p) && self.inputs[p].node != node,
                |p: InputId| self.inputs[p],
            ),
            outputs: Map::new(
                |p: OutputId| self.outputs.contains_key(p) && self.outputs[p].node != node,
                |p: OutputId| self.outputs[p],
            ),
            connections: self.connections.remove_keys(self.links_of_node(node).dom()),
        }
    }

    /// The part of the graph on the given nodes: those of the nodes that the
    /// graph has, their ports, and the connections that have both ends on
    /// such ports.
    pub open spec fn restricted_to(self, keep: Set<NodeId>) -> Self {
        GraphView {
            nodes: self.nodes.restrict(keep),
            inputs: Map::new(
                |p: InputId| self.inputs.contains_key(p) && keep.contains(self.inputs[p].node),
                |p: InputId| self.inputs[p],
            ),
            outputs: Map::new(
                |p: OutputId| self.outputs.contains_key(p) && keep.contains(self.outputs[p].node),
                |p: OutputId| self.outputs[p],
            ),
            connections: Map::new(
                |i: InputId|
                    self.connections.contains_key(i) && keep.contains(self.inputs[i].node)
                        && keep.contains(self.outputs[self.connections[i]].node),
                |i: InputId| self.connections[i],
            ),
        }
    }

    /// Taking one more node out of a part of the graph removes that node
    /// from the part.
    pub proof fn lemma_restricted_without(self, keep: Set<NodeId>, node: NodeId)
        requires
            self.wf(),
        ensures
            self.restricted_to(keep.remove(node)) == self.restricted_to(keep).without_node(node),
    {
        let part = self.restricted_to(keep);
        let less = self.restricted_to(keep.remove(node));
        let goal = part.without_node(node);
        assert(less.nodes =~= goal.nodes);
        assert(less.inputs =~= goal.inputs);
        assert(less.outputs =~= goal.outputs);
        assert forall|i: InputId| less.connections.contains_key(i) == goal.connections.contains_key(
            i,
        ) by {
            if self.connections.contains_key(i) {
                assert(self.inputs.contains_key(i));
                assert(self.outputs.contains_key(self.connections[i]));
            }
        }
        assert(less.connections =~= goal.connections);
    }

    /// The part of a graph on a set that holds all its nodes is the graph.
    pub proof fn lemma_restricted_to_all(self, keep: Set<NodeId>)
        requires
            self.wf(),
            self.nodes.dom().subset_of(keep),
        ensures
            self.restricted_to(keep) == self,
    {
        let part = self.restricted_to(keep);
        assert(part.nodes =~= self.nodes);
        assert forall|p: InputId| self.inputs.contains_key(p) implies part.inputs.contains_key(
            p,
        ) by {
            assert(self.nodes.contains_key(self.inputs[p].node));
        }
        assert forall|p: OutputId| self.outputs.contains_key(p) implies part.outputs.contains_key(
            p,
        ) by {
            assert(self.nodes.contains_key(self.outputs[p].node));
        }
        assert(part.inputs =~= self.inputs);
        assert(part.outputs =~= self.outputs);
        assert forall|i: InputId|
            self.connections.contains_key(i) implies part.connections.contains_key(i) by {
            assert(self.inputs.contains_key(i));
            assert(self.outputs.contains_key(self.connections[i]));
            assert(self.nodes.contains_key(self.inputs[i].node));
            assert(self.nodes.contains_key(self.outputs[self.connections[i]].node));
        }
        assert(part.connections =~= self.connections);
    }

    /// After a node was removed, no connection has an end on a port that
    /// was the node's: the connections that are left are those that did not
    /// touch the node, and both ends of each are ports of other nodes.
    pub proof fn lemma_without_node_links(self, node: NodeId)
        requires
            self.wf(),
        ensures
            forall|i: InputId| #[trigger]
                self.without_node(node).connections.contains_key(i)
                    <==> self.connections.contains_key(
                    i,
                ) && !self.touches(i, node),
            forall|i: InputId| #[trigger]
                self.without_node(node).connections.contains_key(i) ==> {
                    let o = self.without_node(node).connections[i];
                    &&& o == self.connections[i]
                    &&& self.inputs[i].node != node
                    &&& self.outputs[o].node != node
                    &&& self.without_node(node).inputs.contains_key(i)
                    &&& self.without_node(node).outputs.contains_key(o)
                },
    {
        assert forall|i: InputId| #[trigger]
            self.without_node(node).connections.contains_key(i) implies {
            let o = self.without_node(node).connections[i];
            &&& o == self.connections[i]
            &&& self.inputs[i].node != node
            &&& self.outputs[o].node != node
            &&& self.without_node(node).inputs.contains_key(i)
            &&& self.without_node(node).outputs.contains_key(o)
        } by {
            assert(self.connections.contains_key(i));
            assert(!self.links_of_node(node).dom().contains(i));
        }
    }

    /// The graph without some of its connections.
    pub open spec fn without_links(self, inputs: Set<InputId>) -> Self {
        GraphView { connections: self.connections.remove_keys(inputs), ..self }
    }

    /// Taking connections away keeps the graph well-formed.
    pub proof fn lemma_without_links_wf(self, inputs: Set<InputId>)
        requires
            self.wf(),
        ensures
            self.without_links(inputs).wf(),
    {
        let after = self.without_links(inputs);
        assert(after.node_keys() =~= self.node_keys());
        assert(after.input_keys() =~= self.input_keys());
        assert(after.output_keys() =~= self.output_keys());
    }

    /// Removing an input port keeps the graph well-formed.
    pub proof fn lemma_without_input_wf(self, id: InputId)
        requires
            self.wf(),
            self.inputs.contains_key(id),
        ensures
            self.without_input(id).wf(),
    {
        let after = self.without_input(id);
        let owner = self.inputs[id].node;
        let before_node = self.nodes[owner];
        let pred = other_than(id);
        let at = choose|j: int|
            0 <= j < before_node.input_ids().len() && before_node.input_ids()[j] == id;
        assert forall|j: int| 0 <= j < before_node.inputs.len() && j != at implies pred(
            before_node.inputs[j],
        ) by {
            assert(before_node.input_ids()[j] != before_node.input_ids()[at]);
        }
        lemma_filter_removes_one(before_node.inputs, pred, at);
        let after_node = after.nodes[owner];
        assert(after_node.inputs == before_node.inputs.remove(at));
        assert(after.node_keys() =~= self.node_keys());
        assert(after.output_keys() =~= self.output_keys());
        assert forall|k: u64| after.input_keys().contains(k) implies self.input_keys().contains(
            k,
        ) by {}
        assert(after.input_keys() =~= self.input_keys().remove(id.key));
        assert forall|n: NodeId, j: int|
            after.nodes.contains_key(n) && 0 <= j < after.nodes[n].inputs.len() implies {
            let p = #[trigger] after.nodes[n].inputs[j].1;
            after.inputs.contains_key(p) && after.inputs[p].node == n
        } by {
            if n == owner {
                let src = if j < at { j } else { j + 1 };
                assert(after_node.inputs[j] == before_node.inputs[src]);
                assert(before_node.input_ids()[src] != before_node.input_ids()[at]);
            } else {
                assert(after.nodes[n] == self.nodes[n]);
            }
        }
        assert forall|n: NodeId| after.nodes.contains_key(n) implies (#[trigger] after.nodes[
            n
        ]).input_ids().no_duplicates() by {
            if n == owner {
                assert(after_node.input_ids() =~= before_node.input_ids().remove(at));
                assert forall|a: int, b: int|
                    0 <= a < after_node.input_ids().len() && 0 <= b < after_node.input_ids().len()
                        && a != b implies after_node.input_ids()[a]
                            != after_node.input_ids()[b] by {
                    let sa = if a < at { a } else { a + 1 };
                    let sb = if b < at { b } else { b + 1 };
                    assert(after_node.input_ids()[a] == before_node.input_ids()[sa]);
                    assert(after_node.input_ids()[b] == before_node.input_ids()[sb]);
                }
            } else {
                assert(after.nodes[n] == self.nodes[n]);
            }
        }
        assert forall|n: NodeId| after.nodes.contains_key(n) implies (#[trigger] after.nodes[
            n
        ]).output_ids().no_duplicates() by {
            assert(after.nodes[n].output_ids() =~= self.nodes[n].output_ids());
        }
        assert forall|n: NodeId, j: int|
            after.nodes.contains_key(n) && 0 <= j < after.nodes[n].outputs.len() implies {
            let p = #[trigger] after.nodes[n].outputs[j].1;
            after.outputs.contains_key(p) && after.outputs[p].node == n
        } by {
            assert(after.nodes[n].outputs == self.nodes[n].outputs);
        }
        assert forall|p: InputId| after.inputs.contains_key(p) implies {
            let port = #[trigger] after.inputs[p];
            &&& port.id == p
            &&& after.nodes.contains_key(port.node)
            &&& after.nodes[port.node].input_ids().contains(p)
        } by {
            let n = self.inputs[p].node;
            let j = choose|j: int|
                0 <= j < self.nodes[n].input_ids().len() && self.nodes[n].input_ids()[j] == p;
            if n == owner {
                let dst = if j < at { j } else { j - 1 };
                assert(after_node.inputs[dst] == before_node.inputs[j]);
                assert(after_node.input_ids()[dst] == p);
            } else {
                assert(after.nodes[n].input_ids()[j] == p);
            }
        }
        assert forall|p: OutputId| after.outputs.contains_key(p) implies {
            let port = #[trigger] after.outputs[p];
            &&& port.id == p
            &&& after.nodes.contains_key(port.node)
            &&& after.nodes[port.node].output_ids().contains(p)
        } by {
            let n = self.outputs[p].node;
            assert(after.nodes[n].output_ids() =~= self.nodes[n].output_ids());
        }
    }

    /// Removing an output port keeps the graph well-formed.
    pub proof fn lemma_without_output_wf(self, id: OutputId)
        requires
            self.wf(),
            self.outputs.contains_key(id),
        ensures
            self.without_output(id).wf(),
    {
        let after = self.without_output(id);
        let owner = self.outputs[id].node;
        let before_node = self.nodes[owner];
        let pred = other_than(id);
        let at = choose|j: int|
            0 <= j < before_node.output_ids().len() && before_node.output_ids()[j] == id;
        assert forall|j: int| 0 <= j < before_node.outputs.len() && j != at implies pred(
            before_node.outputs[j],
        ) by {
            assert(before_node.output_ids()[j] != before_node.output_ids()[at]);
        }
        lemma_filter_removes_one(before_node.outputs, pred, at);
        let after_node = after.nodes[owner];
        assert(after_node.outputs == before_node.outputs.remove(at));
        assert(after.node_keys() =~= self.node_keys());
        assert(after.input_keys() =~= self.input_keys());
        assert forall|k: u64| after.output_keys().contains(k) implies self.output_keys().contains(
            k,
        ) by {}
        assert(after.output_keys() =~= self.output_keys().remove(id.key));
        assert forall|n: NodeId, j: int|
            after.nodes.contains_key(n) && 0 <= j < after.nodes[n].outputs.len() implies {
            let p = #[trigger] after.nodes[n].outputs[j].1;
            after.outputs.contains_key(p) && after.outputs[p].node == n
        } by {
            if n == owner {
                let src = if j < at { j } else { j + 1 };
                assert(after_node.outputs[j] == before_node.outputs[src]);
                assert(before_node.output_ids()[src] != before_node.output_ids()[at]);
            } else {
                assert(after.nodes[n] == self.nodes[n]);
            }
        }
        assert forall|n: NodeId| after.nodes.contains_key(n) implies (#[trigger] after.nodes[
            n
        ]).output_ids().no_duplicates() by {
            if n == owner {
                assert(after_node.output_ids() =~= before_node.output_ids().remove(at));
                assert forall|a: int, b: int|
                    0 <= a < after_node.output_ids().len() && 0 <= b < after_node.output_ids().len()
                        && a != b implies after_node.output_ids()[a]
                            != after_node.output_ids()[b] by {
                    let sa = if a < at { a } else { a + 1 };
                    let sb = if b < at { b } else { b + 1 };
                    assert(after_node.output_ids()[a] == before_node.output_ids()[sa]);
                    assert(after_node.output_ids()[b] == before_node.output_ids()[sb]);
                }
            } else {
                assert(after.nodes[n] == self.nodes[n]);
            }
        }
        assert forall|n: NodeId| after.nodes.contains_key(n) implies (#[trigger] after.nodes[
            n
        ]).input_ids().no_duplicates() by {
            assert(after.nodes[n].input_ids() =~= self.nodes[n].input_ids());
        }
        assert forall|n: NodeId, j: int|
            after.nodes.contains_key(n) && 0 <= j < after.nodes[n].inputs.len() implies {
            let p = #[trigger] after.nodes[n].inputs[j].1;
            after.inputs.contains_key(p) && after.inputs[p].node == n
        } by {
            assert(after.nodes[n].inputs == self.nodes[n].inputs);
        }
        assert forall|p: OutputId| after.outputs.contains_key(p) implies {
            let port = #[trigger] after.outputs[p];
            &&& port.id == p
            &&& after.nodes.contains_key(port.node)
            &&& after.nodes[port.node].output_ids().contains(p)
        } by {
            let n = self.outputs[p].node;
            let j = choose|j: int|
                0 <= j < self.nodes[n].output_ids().len() && self.nodes[n].output_ids()[j] == p;
            if n == owner {
                let dst = if j < at { j } else { j - 1 };
                assert(after_node.outputs[dst] == before_node.outputs[j]);
                assert(after_node.output_ids()[dst] == p);
            } else {
                assert(after.nodes[n].output_ids()[j] == p);
            }
        }
        assert forall|p: InputId| after.inputs.contains_key(p) implies {
            let port = #[trigger] after.inputs[p];
            &&& port.id == p
            &&& after.nodes.contains_key(port.node)
            &&& after.nodes[port.node].input_ids().contains(p)
        } by {
            let n = self.inputs[p].node;
            assert(after.nodes[n].input_ids() =~= self.nodes[n].input_ids());
        }
    }

    /// Removing a node keeps the graph well-formed.
    pub proof fn lemma_without_node_wf(self, node: NodeId)
        requires
            self.wf(),
            self.nodes.contains_key(node),
        ensures
            self.without_node(node).wf(),
    {
        let after = self.without_node(node);
        assert(after.node_keys() =~= self.node_keys().remove(node.key));
        assert(after.input_keys().subset_of(self.input_keys()));
        assert(after.output_keys().subset_of(self.output_keys()));
        assert(after.inputs.dom().subset_of(self.inputs.dom()));
        assert(after.outputs.dom().subset_of(self.outputs.dom()));
        vstd::set_lib::lemma_len_subset(after.input_keys(), self.input_keys());
        vstd::set_lib::lemma_len_subset(after.output_keys(), self.output_keys());
        vstd::set_lib::lemma_len_subset(after.inputs.dom(), self.inputs.dom());
        vstd::set_lib::lemma_len_subset(after.outputs.dom(), self.outputs.dom());
        assert forall|n: NodeId, j: int|
            after.nodes.contains_key(n) && 0 <= j < after.nodes[n].inputs.len() implies {
            let p = #[trigger] after.nodes[n].inputs[j].1;
            after.inputs.contains_key(p) && after.inputs[p].node == n
        } by {
            let p = self.nodes[n].inputs[j].1;
            assert(self.inputs.contains_key(p) && self.inputs[p].node == n);
        }
        assert forall|n: NodeId, j: int|
            after.nodes.contains_key(n) && 0 <= j < after.nodes[n].outputs.len() implies {
            let p = #[trigger] after.nodes[n].outputs[j].1;
            after.outputs.contains_key(p) && after.outputs[p].node == n
        } by {
            let p = self.nodes[n].outputs[j].1;
            assert(self.outputs.contains_key(p) && self.outputs[p].node == n);
        }
        assert forall|i: InputId| #[trigger] after.connections.contains_key(i) implies
            after.inputs.contains_key(i) && after.outputs.contains_key(after.connections[i]) by {
            assert(self.connections.contains_key(i));
            assert(!self.links_of_node(node).dom().contains(i));
            assert(!self.touches(i, node));
        }
    }

    /// The output that drives the input, if it is connected.
    pub open spec fn connection(self, input: InputId) -> Option<OutputId> {
        if self.connections.contains_key(input) {
            Some(self.connections[input])
        } else {
            None
        }
    }

    /// Whether the graph has the port.
    pub open spec fn has_port(self, param: AnyParameterId) -> bool {
        match param {
            AnyParameterId::Input(input) => self.inputs.contains_key(input),
            AnyParameterId::Output(output) => self.outputs.contains_key(output),
        }
    }

    /// The data type of the port.
    pub open spec fn port_type(self, param: AnyParameterId) -> DataType {
        match param {
            AnyParameterId::Input(input) => self.inputs[input].typ,
            AnyParameterId::Output(output) => self.outputs[output].typ,
        }
    }

    /// The node that owns the port.
    pub open spec fn port_node(self, param: AnyParameterId) -> NodeId {
        match param {
            AnyParameterId::Input(input) => self.inputs[input].node,
            AnyParameterId::Output(output) => self.outputs[output].node,
        }
    }

    /// Whether the connection into `input` has an end on a port of `node`.
    pub open spec fn touches(self, input: InputId, node: NodeId) -> bool {
        self.inputs[input].node == node || self.outputs[self.connections[input]].node == node
    }
}

} // verus!

//! The graph's storage and its operations.

use crate::arena::KeyArena;
use crate::arena::LinkTable;
use crate::arena::arena_clone;
use crate::arena::arena_insert;
use crate::arena::arena_key_list;
use crate::arena::arena_keys;
use crate::arena::arena_new;
use crate::arena::arena_remove;
use crate::arena::issued_form;
use crate::arena::slot_index;
use crate::arena::table_clone;
use crate::arena::table_entries;
use crate::arena::table_get;
use crate::arena::table_insert;
use crate::arena::table_links;
use crate::arena::table_new;
use crate::arena::table_remove;
use crate::graph::EguiGraphError;
use crate::graph::GraphView;
use crate::graph::InputParam;
use crate::graph::InputParamKind;
use crate::graph::MAX_ITEMS;
use crate::graph::Node;
use crate::graph::NodeView;
use crate::graph::OutputParam;
use crate::graph::first_named;
use crate::graph::has_named;
use crate::graph::lemma_filter_removes_one;
use crate::graph::link_inputs;
use crate::graph::link_listing;
use crate::graph::no_parameter_named;
use crate::graph::node_listing;
use crate::graph::other_than;
use crate::graph_copy::input_copied;
use crate::graph_copy::node_replicated;
use crate::graph_copy::output_copied;
use crate::id_type::AnyParameterId;
use crate::id_type::InputId;
use crate::id_type::NodeId;
use crate::id_type::OutputId;
use std::collections::HashMap;
use vstd::prelude::*;

verus! {

broadcast use vstd::std_specs::hash::group_hash_axioms;

/// A set of identities is as large as the set of their keys.
pub(crate) proof fn lemma_rekeyed_len<Id>(keys: Set<u64>, ids: Set<Id>, f: spec_fn(u64) -> Id)
    requires
        keys.finite(),
        vstd::relations::injective(f),
        forall|k: u64| keys.contains(k) <==> ids.contains(#[trigger] f(k)),
        forall|id: Id| ids.contains(id) ==> exists|k: u64| #[trigger] f(k) == id,
    ensures
        ids.finite(),
        ids.len() == keys.len(),
{
    assert(keys.map(f) =~= ids);
    assert(vstd::relations::injective_on(f, keys));
    vstd::set_lib::lemma_map_size(keys, ids, f);
}

/// The keys of the listed input ports.
fn input_port_keys(ports: &Vec<(String, InputId)>) -> (keys: Vec<u64>)
    ensures
        keys.len() == ports.len(),
        forall|j: int| 0 <= j < keys.len() ==> keys[j] == ports[j].1.key,
{
    let mut keys: Vec<u64> = Vec::new();
    let mut j: usize = 0;
    while j < ports.len()
        invariant
            j <= ports.len(),
            keys.len() == j,
            forall|a: int| 0 <= a < j ==> keys[a] == ports[a].1.key,
        decreases ports.len() - j,
    {
        keys.push(ports[j].1.key);
        j += 1;
    }
    keys
}

/// The keys of the listed output ports.
fn output_port_keys(ports: &Vec<(String, OutputId)>) -> (keys: Vec<u64>)
    ensures
        keys.len() == ports.len(),
        forall|j: int| 0 <= j < keys.len() ==> keys[j] == ports[j].1.key,
{
    let mut keys: Vec<u64> = Vec::new();
    let mut j: usize = 0;
    while j < ports.len()
        invariant
            j <= ports.len(),
            keys.len() == j,
            forall|a: int| 0 <= a < j ==> keys[a] == ports[a].1.key,
        decreases ports.len() - j,
    {
        keys.push(ports[j].1.key);
        j += 1;
    }
    keys
}

/// Removes the items under the listed keys from a store and frees the keys.
fn drop_keys<P>(store: &mut HashMap<u64, P>, arena: &mut KeyArena, keys: &Vec<u64>)
    requires
        old(store)@.dom() == arena_keys(*old(arena)),
        keys@.no_duplicates(),
        forall|j: int| 0 <= j < keys.len() ==> old(store)@.contains_key(#[trigger] keys[j]),
    ensures
        final(store)@.dom() == arena_keys(*final(arena)),
        final(store)@ == old(store)@.remove_keys(keys@.to_set()),
{
    let mut j: usize = 0;
    while j < keys.len()
        invariant
            j <= keys.len(),
            keys@.no_duplicates(),
            store@.dom() == arena_keys(*arena),
            store@ == old(store)@.remove_keys(keys@.take(j as int).to_set()),
            forall|a: int| 0 <= a < keys.len() ==> old(store)@.contains_key(#[trigger] keys[a]),
        decreases keys.len() - j,
    {
        let key = keys[j];
        proof {
            assert(!keys@.take(j as int).to_set().contains(key)) by {
                if keys@.take(j as int).to_set().contains(key) {
                    let a = choose|a: int| 0 <= a < j && keys@.take(j as int)[a] == key;
                    assert(keys[a] == keys[j as int]);
                }
            }
        }
        store.remove(&key);
        arena_remove(arena, key);
        proof {
            assert(keys@.take(j + 1) =~= keys@.take(j as int).push(key));
            keys@.take(j as int).lemma_push_to_set_commute(key);
            assert(store@ =~= old(store)@.remove_keys(keys@.take(j + 1).to_set()));
        }
        j += 1;
    }
    proof {
        assert(keys@.take(keys.len() as int) =~= keys@);
    }
}

/// A copy of a store: under each listed key that the store has, a clone of
/// the item.
fn clone_store<P: Clone>(store: &HashMap<u64, P>, keys: &Vec<u64>) -> (copy: HashMap<u64, P>)
    ensures
        forall|key: u64|
            copy@.contains_key(key) <==> keys@.contains(key) && store@.contains_key(key),
        forall|key: u64| copy@.contains_key(key) ==> cloned(store@[key], #[trigger] copy@[key]),
{
    let mut copy: HashMap<u64, P> = HashMap::new();
    let mut j: usize = 0;
    while j < keys.len()
        invariant
            j <= keys.len(),
            forall|key: u64|
                copy@.contains_key(key) <==> keys@.take(j as int).contains(key)
                    && store@.contains_key(key),
            forall|key: u64| copy@.contains_key(key) ==> cloned(store@[key], #[trigger] copy@[key]),
        decreases keys.len() - j,
    {
        let key = keys[j];
        let ghost before = copy@;
        proof {
            assert(keys@.take(j + 1) =~= keys@.take(j as int).push(key));
        }
        match store.get(&key) {
            Some(item) => {
                copy.insert(key, item.clone());
            },
            None => {},
        }
        proof {
            assert forall|k: u64|
                copy@.contains_key(k) <==> keys@.take(j + 1).contains(k) && store@.contains_key(
                    k,
                ) by {
                let shorter = keys@.take(j as int);
                let longer = keys@.take(j + 1);
                if shorter.contains(k) {
                    let a = choose|a: int| 0 <= a < shorter.len() && shorter[a] == k;
                    assert(longer[a] == k);
                }
                if k == key {
                    assert(longer[j as int] == k);
                }
                if longer.contains(k) && k != key {
                    let a = choose|a: int| 0 <= a < longer.len() && longer[a] == k;
                    assert(shorter[a] == k);
                }
            }
        }
        j += 1;
    }
    proof {
        assert(keys@.take(keys.len() as int) =~= keys@);
    }
    copy
}

/// Removes the entries of the listed inputs from the table.
fn table_remove_all(table: &mut LinkTable, doomed: &Vec<(InputId, OutputId)>)
    requires
        forall|j: int| 0 <= j < doomed.len() ==> issued_form((#[trigger] doomed[j]).0.key),
    ensures
        forall|k: u64|
            table_links(*final(table)).contains_key(k) <==> table_links(*old(table)).contains_key(
                k,
            ) && !(exists|j: int| 0 <= j < doomed.len() && (#[trigger] doomed[j]).0.key == k),
        forall|k: u64|
            table_links(*final(table)).contains_key(k) ==> table_links(*final(table))[k]
                == table_links(*old(table))[k],
{
    let mut n: usize = 0;
    while n < doomed.len()
        invariant
            n <= doomed.len(),
            forall|j: int| 0 <= j < doomed.len() ==> issued_form((#[trigger] doomed[j]).0.key),
            forall|k: u64|
                table_links(*table).contains_key(k) <==> table_links(*old(table)).contains_key(k)
                    && !(exists|j: int| 0 <= j < n && (#[trigger] doomed[j]).0.key == k),
            forall|k: u64|
                table_links(*table).contains_key(k) ==> table_links(*table)[k] == table_links(
                    *old(table),
                )[k],
        decreases doomed.len() - n,
    {
        let ghost before = table_links(*table);
        table_remove(table, doomed[n].0.key);
        proof {
            assert forall|k: u64|
                table_links(*table).contains_key(k) <==> table_links(*old(table)).contains_key(k)
                    && !(exists|j: int| 0 <= j < n + 1 && (#[trigger] doomed[j]).0.key == k) by {
                if k == doomed[n as int].0.key {
                } else if before.contains_key(k) {
                    assert(table_links(*table).contains_key(k));
                    if exists|j: int| 0 <= j < n + 1 && (#[trigger] doomed[j]).0.key == k {
                        let j = choose|j: int| 0 <= j < n + 1 && (#[trigger] doomed[j]).0.key == k;
                        assert(j < n);
                    }
                }
            }
        }
        n += 1;
    }
}

/// Where the input port stands in the list.
fn input_position(ports: &Vec<(String, InputId)>, id: InputId) -> (at: usize)
    requires
        exists|j: int| 0 <= j < ports.len() && (#[trigger] ports[j]).1 == id,
    ensures
        at < ports.len(),
        ports[at as int].1 == id,
{
    let mut at: usize = 0;
    while ports[at].1 != id
        invariant
            at < ports.len(),
            exists|j: int| at <= j < ports.len() && (#[trigger] ports[j]).1 == id,
        decreases ports.len() - at,
    {
        at += 1;
    }
    at
}

/// Where the output port stands in the list.
fn output_position(ports: &Vec<(String, OutputId)>, id: OutputId) -> (at: usize)
    requires
        exists|j: int| 0 <= j < ports.len() && (#[trigger] ports[j]).1 == id,
    ensures
        at < ports.len(),
        ports[at as int].1 == id,
{
    let mut at: usize = 0;
    while ports[at].1 != id
        invariant
            at < ports.len(),
            exists|j: int| at <= j < ports.len() && (#[trigger] ports[j]).1 == id,
        decreases ports.len() - at,
    {
        at += 1;
    }
    at
}

/// The graph: nodes, ports and connections, each under an identity that it
/// keeps for as long as it lives.
pub struct Graph<NodeData, DataType, ValueType> {
    node_keys: KeyArena,
    input_keys: KeyArena,
    output_keys: KeyArena,
    nodes: HashMap<u64, Node<NodeData>>,
    inputs: HashMap<u64, InputParam<DataType, ValueType>>,
    outputs: HashMap<u64, OutputParam<DataType>>,
    connections: LinkTable,
}

impl<NodeData, DataType, ValueType> View for Graph<NodeData, DataType, ValueType> {
    type V = GraphView<NodeData, DataType, ValueType>;

    closed spec fn view(&self) -> GraphView<NodeData, DataType, ValueType> {
        GraphView {
            nodes: Map::new(
                |id: NodeId| self.nodes@.contains_key(id.key),
                |id: NodeId| self.nodes@[id.key]@,
            ),
            inputs: Map::new(
                |id: InputId| self.inputs@.contains_key(id.key),
                |id: InputId| self.inputs@[id.key],
            ),
            outputs: Map::new(
                |id: OutputId| self.outputs@.contains_key(id.key),
                |id: OutputId| self.outputs@[id.key],
            ),
            connections: Map::new(
                |id: InputId| table_links(self.connections).contains_key(id.key),
                |id: InputId| OutputId { key: table_links(self.connections)[id.key] },
            ),
        }
    }
}

impl<NodeData, DataType, ValueType> Graph<NodeData, DataType, ValueType> {
    /// Each store holds its items under exactly the keys that its arena has
    /// live.
    pub closed spec fn stores_agree(&self) -> bool {
        &&& self.nodes@.dom() == arena_keys(self.node_keys)
        &&& self.inputs@.dom() == arena_keys(self.input_keys)
        &&& self.outputs@.dom() == arena_keys(self.output_keys)
    }

    /// The state that every operation expects and leaves behind.
    pub open spec fn wf(&self) -> bool {
        self.stores_agree() && self@.wf()
    }
}

impl<NodeData, DataType, ValueType> Graph<NodeData, DataType, ValueType> {
    /// A graph without nodes.
    pub fn new() -> (graph: Self)
        ensures
            graph.wf(),
            graph@.nodes == Map::<NodeId, NodeView<NodeData>>::empty(),
            graph@.inputs == Map::<InputId, InputParam<DataType, ValueType>>::empty(),
            graph@.outputs == Map::<OutputId, OutputParam<DataType>>::empty(),
            graph@.connections == Map::<InputId, OutputId>::empty(),
    {
        let graph = Graph {
            node_keys: arena_new(),
            input_keys: arena_new(),
            output_keys: arena_new(),
            nodes: HashMap::new(),
            inputs: HashMap::new(),
            outputs: HashMap::new(),
            connections: table_new(),
        };
        proof {
            assert(table_links(graph.connections) =~= Map::<u64, u64>::empty());
            assert(graph@.node_keys() =~= Set::<u64>::empty());
            assert(graph@.input_keys() =~= Set::<u64>::empty());
            assert(graph@.output_keys() =~= Set::<u64>::empty());
            assert(graph@.nodes =~= Map::<NodeId, NodeView<NodeData>>::empty());
            assert(graph@.inputs =~= Map::<InputId, InputParam<DataType, ValueType>>::empty());
            assert(graph@.outputs =~= Map::<OutputId, OutputParam<DataType>>::empty());
            assert(graph@.connections =~= Map::<InputId, OutputId>::empty());
        }
        graph
    }

    /// Adds a node without ports and returns its identity, which no node of
    /// the graph had before.
    pub fn add_node(&mut self, label: String, user_data: NodeData) -> (id: NodeId)
        requires
            old(self).wf(),
            old(self)@.nodes.len() < MAX_ITEMS,
        ensures
            final(self).wf(),
            !old(self)@.nodes.contains_key(id),
            final(self)@.nodes == old(self)@.nodes.insert(
                id,
                NodeView {
                    id,
                    label: label@,
                    inputs: Seq::empty(),
                    outputs: Seq::empty(),
                    user_data,
                },
            ),
            final(self)@.inputs == old(self)@.inputs,
            final(self)@.outputs == old(self)@.outputs,
            final(self)@.connections == old(self)@.connections,
    {
        proof {
            self.lemma_key_sets();
        }
        let key = arena_insert(&mut self.node_keys);
        let id = NodeId { key };
        let node = Node { id, label, inputs: Vec::new(), outputs: Vec::new(), user_data };
        assert(node@.inputs =~= Seq::empty());
        assert(node@.outputs =~= Seq::empty());
        self.nodes.insert(key, node);
        proof {
            assert(final(self)@.nodes =~= old(self)@.nodes.insert(id, node@));
            assert(final(self)@.inputs =~= old(self)@.inputs);
            assert(final(self)@.outputs =~= old(self)@.outputs);
            assert(final(self)@.connections =~= old(self)@.connections);
            assert(final(self)@.node_keys() =~= arena_keys(final(self).node_keys));
            assert(final(self)@.input_keys() =~= old(self)@.input_keys());
            assert(final(self)@.output_keys() =~= old(self)@.output_keys());
        }
        id
    }

    /// Adds an input port at the end of the node's inputs and returns its
    /// identity, which no input of the graph had before.
    pub fn add_input_param(
        &mut self,
        node_id: NodeId,
        name: String,
        typ: DataType,
        value: ValueType,
        kind: InputParamKind,
        shown_inline: bool,
    ) -> (id: InputId)
        requires
            old(self).wf(),
            old(self)@.nodes.contains_key(node_id),
            old(self)@.inputs.len() < MAX_ITEMS,
        ensures
            final(self).wf(),
            !old(self)@.inputs.contains_key(id),
            final(self)@.inputs == old(self)@.inputs.insert(
                id,
                InputParam { id, typ, value, kind, node: node_id, shown_inline },
            ),
            final(self)@.nodes == old(self)@.nodes.insert(
                node_id,
                old(self)@.nodes[node_id].with_input(name@, id),
            ),
            final(self)@.outputs == old(self)@.outputs,
            final(self)@.connections == old(self)@.connections,
    {
        proof {
            self.lemma_key_sets();
        }
        let key = arena_insert(&mut self.input_keys);
        let id = InputId { key };
        self.inputs.insert(key, InputParam { id, typ, value, kind, node: node_id, shown_inline });
        let mut node = self.nodes.remove(&node_id.key).unwrap();
        let ghost before = node@;
        node.inputs.push((name, id));
        proof {
            assert(node@.inputs =~= before.inputs.push((name@, id)));
            assert(node@ == before.with_input(name@, id));
        }
        self.nodes.insert(node_id.key, node);
        proof {
            let old_view = old(self)@;
            let new_view = final(self)@;
            assert(new_view.nodes =~= old_view.nodes.insert(node_id, node@));
            assert(new_view.inputs =~= old_view.inputs.insert(
                id,
                InputParam { id, typ, value, kind, node: node_id, shown_inline },
            ));
            assert(new_view.outputs =~= old_view.outputs);
            assert(new_view.connections =~= old_view.connections);
            assert(new_view.node_keys() =~= old_view.node_keys());
            assert(new_view.input_keys() =~= arena_keys(final(self).input_keys));
            assert(new_view.output_keys() =~= old_view.output_keys());
            old_view.lemma_with_input_wf(new_view, node_id, name@, id);
        }
        id
    }

    /// Adds an output port at the end of the node's outputs and returns its
    /// identity, which no output of the graph had before.
    pub fn add_output_param(&mut self, node_id: NodeId, name: String, typ: DataType) -> (id:
        OutputId)
        requires
            old(self).wf(),
            old(self)@.nodes.contains_key(node_id),
            old(self)@.outputs.len() < MAX_ITEMS,
        ensures
            final(self).wf(),
            !old(self)@.outputs.contains_key(id),
            final(self)@.outputs == old(self)@.outputs.insert(
                id,
                OutputParam { id, node: node_id, typ },
            ),
            final(self)@.nodes == old(self)@.nodes.insert(
                node_id,
                old(self)@.nodes[node_id].with_output(name@, id),
            ),
            final(self)@.inputs == old(self)@.inputs,
            final(self)@.connections == old(self)@.connections,
    {
        proof {
            self.lemma_key_sets();
        }
        let key = arena_insert(&mut self.output_keys);
        let id = OutputId { key };
        self.outputs.insert(key, OutputParam { id, node: node_id, typ });
        let mut node = self.nodes.remove(&node_id.key).unwrap();
        let ghost before = node@;
        node.outputs.push((name, id));
        proof {
            assert(node@.outputs =~= before.outputs.push((name@, id)));
            assert(node@ == before.with_output(name@, id));
        }
        self.nodes.insert(node_id.key, node);
        proof {
            let old_view = old(self)@;
            let new_view = final(self)@;
            assert(new_view.nodes =~= old_view.nodes.insert(node_id, node@));
            assert(new_view.outputs =~= old_view.outputs.insert(
                id,
                OutputParam { id, node: node_id, typ },
            ));
            assert(new_view.inputs =~= old_view.inputs);
            assert(new_view.connections =~= old_view.connections);
            assert(new_view.node_keys() =~= old_view.node_keys());
            assert(new_view.output_keys() =~= arena_keys(final(self).output_keys));
            assert(new_view.input_keys() =~= old_view.input_keys());
            old_view.lemma_with_output_wf(new_view, node_id, name@, id);
        }
        id
    }

    /// Connects the output to the input. An input has one connection at the
    /// most: the one it had, if any, is replaced.
    pub fn add_connection(&mut self, output: OutputId, input: InputId)
        requires
            old(self).wf(),
            old(self)@.inputs.contains_key(input),
            old(self)@.outputs.contains_key(output),
        ensures
            final(self).wf(),
            final(self)@.connections == old(self)@.connections.insert(input, output),
            final(self)@.nodes == old(self)@.nodes,
            final(self)@.inputs == old(self)@.inputs,
            final(self)@.outputs == old(self)@.outputs,
    {
        proof {
            let view = self@;
            assert(view.input_keys().contains(input.key));
            assert forall|k: u64|
                table_links(self.connections).contains_key(k) && slot_index(k) == slot_index(
                    input.key,
                ) implies k == input.key by {
                assert(view.connections.contains_key(InputId { key: k }));
                assert(view.input_keys().contains(k));
            }
        }
        table_insert(&mut self.connections, input.key, output.key);
        proof {
            let old_view = old(self)@;
            let new_view = final(self)@;
            assert(new_view.connections =~= old_view.connections.insert(input, output));
            assert(new_view.nodes =~= old_view.nodes);
            assert(new_view.inputs =~= old_view.inputs);
            assert(new_view.outputs =~= old_view.outputs);
        }
    }

    /// Removes the connection into the input and returns the output that
    /// drove it, if there was one.
    pub fn remove_connection(&mut self, input_id: InputId) -> (output: Option<OutputId>)
        requires
            old(self).wf(),
        ensures
            final(self).wf(),
            output == old(self)@.connection(input_id),
            final(self)@.connections == old(self)@.connections.remove(input_id),
            final(self)@.nodes == old(self)@.nodes,
            final(self)@.inputs == old(self)@.inputs,
            final(self)@.outputs == old(self)@.outputs,
    {
        if !self.inputs.contains_key(&input_id.key) {
            proof {
                assert(!self@.connections.contains_key(input_id));
                assert(self@.connections.remove(input_id) =~= self@.connections);
            }
            return None;
        }
        proof {
            assert(self@.input_keys().contains(input_id.key));
        }
        let removed = table_remove(&mut self.connections, input_id.key);
        proof {
            let old_view = old(self)@;
            let new_view = final(self)@;
            assert(new_view.connections =~= old_view.connections.remove(input_id));
            assert(new_view.nodes =~= old_view.nodes);
            assert(new_view.inputs =~= old_view.inputs);
            assert(new_view.outputs =~= old_view.outputs);
        }
        match removed {
            Some(key) => Some(OutputId { key }),
            None => None,
        }
    }

    /// The output that drives the input, if it is connected.
    pub fn connection(&self, input: InputId) -> (output: Option<OutputId>)
        requires
            self.wf(),
        ensures
            output == self@.connection(input),
    {
        if !self.inputs.contains_key(&input.key) {
            proof {
                assert(!self@.connections.contains_key(input));
            }
            return None;
        }
        proof {
            assert(self@.input_keys().contains(input.key));
        }
        match table_get(&self.connections, input.key) {
            Some(key) => Some(OutputId { key }),
            None => None,
        }
    }

    /// The input port of that identity, if the graph has it.
    pub fn try_get_input(&self, input: InputId) -> (found: Option<
        &InputParam<DataType, ValueType>,
    >)
        ensures
            match found {
                Some(port) => self@.inputs.contains_key(input) && *port == self@.inputs[input],
                None => !self@.inputs.contains_key(input),
            },
    {
        self.inputs.get(&input.key)
    }

    /// The input port of that identity.
    pub fn get_input(&self, input: InputId) -> (port: &InputParam<DataType, ValueType>)
        requires
            self@.inputs.contains_key(input),
        ensures
            *port == self@.inputs[input],
    {
        self.inputs.get(&input.key).unwrap()
    }

    /// The output port of that identity, if the graph has it.
    pub fn try_get_output(&self, output: OutputId) -> (found: Option<&OutputParam<DataType>>)
        ensures
            match found {
                Some(port) => self@.outputs.contains_key(output) && *port == self@.outputs[output],
                None => !self@.outputs.contains_key(output),
            },
    {
        self.outputs.get(&output.key)
    }

    /// The output port of that identity.
    pub fn get_output(&self, output: OutputId) -> (port: &OutputParam<DataType>)
        requires
            self@.outputs.contains_key(output),
        ensures
            *port == self@.outputs[output],
    {
        self.outputs.get(&output.key).unwrap()
    }

    /// The node of that identity, if the graph has it.
    pub fn try_get_node(&self, node_id: NodeId) -> (found: Option<&Node<NodeData>>)
        ensures
            match found {
                Some(node) => self@.nodes.contains_key(node_id) && node@ == self@.nodes[node_id],
                None => !self@.nodes.contains_key(node_id),
            },
    {
        self.nodes.get(&node_id.key)
    }

    /// The node of that identity.
    pub fn get_node(&self, node_id: NodeId) -> (node: &Node<NodeData>)
        requires
            self@.nodes.contains_key(node_id),
        ensures
            node@ == self@.nodes[node_id],
    {
        self.nodes.get(&node_id.key).unwrap()
    }

    /// Puts a value into an input port and returns the value that was
    /// there.
    pub fn replace_input_value(&mut self, input: InputId, value: ValueType) -> (previous:
        ValueType)
        requires
            old(self).wf(),
            old(self)@.inputs.contains_key(input),
        ensures
            final(self).wf(),
            previous == old(self)@.inputs[input].value,
            final(self)@.inputs == old(self)@.inputs.insert(
                input,
                InputParam { value, ..old(self)@.inputs[input] },
            ),
            final(self)@.nodes == old(self)@.nodes,
            final(self)@.outputs == old(self)@.outputs,
            final(self)@.connections == old(self)@.connections,
    {
        let port = self.inputs.remove(&input.key).unwrap();
        let InputParam { id, typ, value: previous, kind, node, shown_inline } = port;
        self.inputs.insert(input.key, InputParam { id, typ, value, kind, node, shown_inline });
        proof {
            let old_view = old(self)@;
            let new_view = final(self)@;
            assert(new_view.inputs =~= old_view.inputs.insert(
                input,
                InputParam { value, ..old_view.inputs[input] },
            ));
            assert(new_view.nodes =~= old_view.nodes);
            assert(new_view.outputs =~= old_view.outputs);
            assert(new_view.connections =~= old_view.connections);
            assert(new_view.node_keys() =~= old_view.node_keys());
            assert(new_view.input_keys() =~= old_view.input_keys());
            assert(new_view.output_keys() =~= old_view.output_keys());
            assert(self.inputs@.dom() =~= old(self).inputs@.dom());
        }
        previous
    }

    /// The node that owns a port of either direction.
    pub fn any_param_node(&self, param: AnyParameterId) -> (node: Result<NodeId, EguiGraphError>)
        ensures
            match node {
                Ok(n) => self@.has_port(param) && n == self@.port_node(param),
                Err(e) => !self@.has_port(param) && e == EguiGraphError::InvalidParameterId(param),
            },
    {
        match param {
            AnyParameterId::Input(input) => match self.inputs.get(&input.key) {
                Some(port) => Ok(port.node),
                None => Err(EguiGraphError::InvalidParameterId(param)),
            },
            AnyParameterId::Output(output) => match self.outputs.get(&output.key) {
                Some(port) => Ok(port.node),
                None => Err(EguiGraphError::InvalidParameterId(param)),
            },
        }
    }

    /// The data type of a port of either direction.
    pub fn any_param_type(&self, param: AnyParameterId) -> (typ: Result<&DataType, EguiGraphError>)
        ensures
            match typ {
                Ok(t) => self@.has_port(param) && *t == self@.port_type(param),
                Err(e) => !self@.has_port(param) && e == EguiGraphError::InvalidParameterId(param),
            },
    {
        match param {
            AnyParameterId::Input(input) => match self.inputs.get(&input.key) {
                Some(port) => Ok(&port.typ),
                None => Err(EguiGraphError::InvalidParameterId(param)),
            },
            AnyParameterId::Output(output) => match self.outputs.get(&output.key) {
                Some(port) => Ok(&port.typ),
                None => Err(EguiGraphError::InvalidParameterId(param)),
            },
        }
    }

    /// The identities of all nodes, in the order of their slots.
    pub fn iter_nodes(&self) -> (ids: Vec<NodeId>)
        requires
            self.wf(),
        ensures
            node_listing(ids@, self@.nodes.dom()),
    {
        let keys = arena_key_list(&self.node_keys);
        let mut ids: Vec<NodeId> = Vec::new();
        let mut k: usize = 0;
        while k < keys.len()
            invariant
                k <= keys.len(),
                ids.len() == k,
                forall|j: int| 0 <= j < k ==> (#[trigger] ids[j]).key == keys[j],
            decreases keys.len() - k,
        {
            ids.push(NodeId { key: keys[k] });
            k += 1;
        }
        proof {
            assert forall|id: NodeId| ids@.to_set().contains(id) == self@.nodes.dom().contains(
                id,
            ) by {
                if ids@.to_set().contains(id) {
                    let j = choose|j: int| 0 <= j < ids.len() && ids[j] == id;
                    assert(keys@.to_set().contains(keys[j]));
                }
                if self@.nodes.dom().contains(id) {
                    assert(keys@.to_set().contains(id.key));
                    let j = choose|j: int| 0 <= j < keys.len() && keys[j] == id.key;
                    assert(ids[j] == id);
                }
            }
            assert(ids@.to_set() =~= self@.nodes.dom());
        }
        ids
    }

    /// The identities of all input ports, in the order of their slots.
    pub fn iter_inputs(&self) -> (ids: Vec<InputId>)
        requires
            self.wf(),
        ensures
            ids@.to_set() == self@.inputs.dom(),
            forall|a: int, b: int|
                0 <= a < b < ids.len() ==> slot_index((#[trigger] ids[a]).key) < slot_index(
                    (#[trigger] ids[b]).key,
                ),
    {
        let keys = arena_key_list(&self.input_keys);
        let mut ids: Vec<InputId> = Vec::new();
        let mut k: usize = 0;
        while k < keys.len()
            invariant
                k <= keys.len(),
                ids.len() == k,
                forall|j: int| 0 <= j < k ==> (#[trigger] ids[j]).key == keys[j],
            decreases keys.len() - k,
        {
            ids.push(InputId { key: keys[k] });
            k += 1;
        }
        proof {
            assert forall|id: InputId| ids@.to_set().contains(id) == self@.inputs.dom().contains(
                id,
            ) by {
                if ids@.to_set().contains(id) {
                    let j = choose|j: int| 0 <= j < ids.len() && ids[j] == id;
                    assert(keys@.to_set().contains(keys[j]));
                }
                if self@.inputs.dom().contains(id) {
                    assert(keys@.to_set().contains(id.key));
                    let j = choose|j: int| 0 <= j < keys.len() && keys[j] == id.key;
                    assert(ids[j] == id);
                }
            }
            assert(ids@.to_set() =~= self@.inputs.dom());
        }
        ids
    }

    /// The identities of all output ports, in the order of their slots.
    pub fn iter_outputs(&self) -> (ids: Vec<OutputId>)
        requires
            self.wf(),
        ensures
            ids@.to_set() == self@.outputs.dom(),
            forall|a: int, b: int|
                0 <= a < b < ids.len() ==> slot_index((#[trigger] ids[a]).key) < slot_index(
                    (#[trigger] ids[b]).key,
                ),
    {
        let keys = arena_key_list(&self.output_keys);
        let mut ids: Vec<OutputId> = Vec::new();
        let mut k: usize = 0;
        while k < keys.len()
            invariant
                k <= keys.len(),
                ids.len() == k,
                forall|j: int| 0 <= j < k ==> (#[trigger] ids[j]).key == keys[j],
            decreases keys.len() - k,
        {
            ids.push(OutputId { key: keys[k] });
            k += 1;
        }
        proof {
            assert forall|id: OutputId|
                ids@.to_set().contains(id) == self@.outputs.dom().contains(id) by {
                if ids@.to_set().contains(id) {
                    let j = choose|j: int| 0 <= j < ids.len() && ids[j] == id;
                    assert(keys@.to_set().contains(keys[j]));
                }
                if self@.outputs.dom().contains(id) {
                    assert(keys@.to_set().contains(id.key));
                    let j = choose|j: int| 0 <= j < keys.len() && keys[j] == id.key;
                    assert(ids[j] == id);
                }
            }
            assert(ids@.to_set() =~= self@.outputs.dom());
        }
        ids
    }

    /// How many nodes the graph has.
    pub fn node_count(&self) -> (count: usize)
        requires
            self.wf(),
        ensures
            count == self@.nodes.len(),
    {
        proof {
            self.lemma_key_sets();
        }
        self.nodes.len()
    }

    /// How many input ports the graph has.
    pub fn input_count(&self) -> (count: usize)
        requires
            self.wf(),
        ensures
            count == self@.inputs.len(),
    {
        proof {
            self.lemma_key_sets();
        }
        self.inputs.len()
    }

    /// How many output ports the graph has.
    pub fn output_count(&self) -> (count: usize)
        requires
            self.wf(),
        ensures
            count == self@.outputs.len(),
    {
        proof {
            self.lemma_key_sets();
        }
        self.outputs.len()
    }

    /// All connections, each as its input and the output that drives it, in
    /// the order of the inputs' slots.
    pub fn iter_connections(&self) -> (links: Vec<(InputId, OutputId)>)
        requires
            self.wf(),
        ensures
            link_listing(links@, self@.connections),
    {
        let entries = table_entries(&self.connections);
        let mut links: Vec<(InputId, OutputId)> = Vec::new();
        let mut k: usize = 0;
        while k < entries.len()
            invariant
                k <= entries.len(),
                links.len() == k,
                forall|j: int|
                    0 <= j < k ==> (#[trigger] links[j]).0.key == entries[j].0 && links[j].1.key
                        == entries[j].1,
            decreases entries.len() - k,
        {
            links.push((InputId { key: entries[k].0 }, OutputId { key: entries[k].1 }));
            k += 1;
        }
        proof {
            let keys = entries@.map_values(|e: (u64, u64)| e.0);
            assert forall|j: int| 0 <= j < links.len() implies self@.connections.contains_key(
                (#[trigger] links[j]).0,
            ) && self@.connections[links[j].0] == links[j].1 by {
                assert(keys[j] == entries[j].0);
                assert(keys.to_set().contains(keys[j]));
            }
            assert forall|i: InputId| self@.connections.contains_key(i) implies exists|j: int|
                0 <= j < links.len() && (#[trigger] links[j]).0 == i by {
                assert(keys.to_set().contains(i.key));
                let j = choose|j: int| 0 <= j < keys.len() && keys[j] == i.key;
                assert(links[j].0 == i);
            }
            assert forall|a: int, b: int| 0 <= a < b < links.len() implies slot_index(
                (#[trigger] links[a]).0.key,
            ) < slot_index((#[trigger] links[b]).0.key) by {
                assert(keys[a] == entries[a].0);
                assert(keys[b] == entries[b].0);
            }
        }
        links
    }

    /// Removes an input port: it leaves its node's list, and the connection
    /// into it goes.
    pub fn remove_input_param(&mut self, param: InputId)
        requires
            old(self).wf(),
            old(self)@.inputs.contains_key(param),
        ensures
            final(self).wf(),
            final(self)@ == old(self)@.without_input(param),
    {
        let owner = self.inputs.get(&param.key).unwrap().node;
        proof {
            assert(self@.inputs[param].node == owner);
            assert(self@.nodes.contains_key(owner));
            assert(self@.input_keys().contains(param.key));
        }
        let mut node = self.nodes.remove(&owner.key).unwrap();
        let ghost before = node@;
        proof {
            assert(before == old(self)@.nodes[owner]);
            let j = choose|j: int|
                0 <= j < before.input_ids().len() && before.input_ids()[j] == param;
            assert(node.inputs[j].1 == param);
        }
        let at = input_position(&node.inputs, param);
        node.inputs.remove(at);
        proof {
            assert forall|j: int| 0 <= j < before.inputs.len() && j != at implies other_than(
                param,
            )(before.inputs[j]) by {
                assert(before.input_ids()[j] != before.input_ids()[at as int]);
            }
            lemma_filter_removes_one(before.inputs, other_than(param), at as int);
            assert(node@.inputs =~= before.inputs.remove(at as int));
            assert(node@ == before.without_input(param));
        }
        self.nodes.insert(owner.key, node);
        self.inputs.remove(&param.key);
        arena_remove(&mut self.input_keys, param.key);
        table_remove(&mut self.connections, param.key);
        proof {
            let old_view = old(self)@;
            let new_view = final(self)@;
            let goal = old_view.without_input(param);
            assert(new_view.nodes =~= goal.nodes);
            assert(new_view.inputs =~= goal.inputs);
            assert(new_view.outputs =~= goal.outputs);
            assert(new_view.connections =~= goal.connections);
            old_view.lemma_without_input_wf(param);
        }
    }

    /// Removes the listed connections.
    fn unlink(&mut self, doomed: &Vec<(InputId, OutputId)>)
        requires
            old(self).wf(),
            forall|j: int|
                0 <= j < doomed.len() ==> old(self)@.connections.contains_key(
                    (#[trigger] doomed[j]).0,
                ),
        ensures
            final(self).wf(),
            final(self)@ == old(self)@.without_links(link_inputs(doomed@)),
            final(self).nodes == old(self).nodes,
            final(self).inputs == old(self).inputs,
            final(self).outputs == old(self).outputs,
            final(self).node_keys == old(self).node_keys,
            final(self).input_keys == old(self).input_keys,
            final(self).output_keys == old(self).output_keys,
    {
        proof {
            assert forall|j: int| 0 <= j < doomed.len() implies issued_form(
                (#[trigger] doomed[j]).0.key,
            ) by {
                assert(self@.input_keys().contains(doomed[j].0.key));
            }
        }
        table_remove_all(&mut self.connections, doomed);
        proof {
            let old_view = old(self)@;
            let new_view = final(self)@;
            let goal = old_view.without_links(link_inputs(doomed@));
            assert forall|i: InputId| new_view.connections.contains_key(i)
                == goal.connections.contains_key(i) by {
                if link_inputs(doomed@).contains(i) {
                    let j = choose|j: int| 0 <= j < doomed.len() && (#[trigger] doomed[j]).0 == i;
                    assert(doomed[j].0.key == i.key);
                }
            }
            assert(new_view.connections =~= goal.connections);
            assert(new_view.nodes =~= goal.nodes);
            assert(new_view.inputs =~= goal.inputs);
            assert(new_view.outputs =~= goal.outputs);
            old_view.lemma_without_links_wf(link_inputs(doomed@));
        }
    }

    /// Removes an output port: it leaves its node's list, and every
    /// connection that it drives goes.
    pub fn remove_output_param(&mut self, param: OutputId)
        requires
            old(self).wf(),
            old(self)@.outputs.contains_key(param),
        ensures
            final(self).wf(),
            final(self)@ == old(self)@.without_output(param),
    {
        let links = self.iter_connections();
        let mut doomed: Vec<(InputId, OutputId)> = Vec::new();
        let mut k: usize = 0;
        while k < links.len()
            invariant
                k <= links.len(),
                forall|a: int|
                    0 <= a < doomed.len() ==> (#[trigger] doomed[a]).1 == param && exists|j: int|
                        0 <= j < k && links[j] == doomed[a],
                forall|j: int|
                    0 <= j < k && (#[trigger] links[j]).1 == param ==> exists|a: int|
                        0 <= a < doomed.len() && doomed[a] == links[j],
            decreases links.len() - k,
        {
            if links[k].1 == param {
                let ghost before = doomed@;
                doomed.push(links[k]);
                proof {
                    assert forall|j: int|
                        0 <= j < k + 1 && (#[trigger] links[j]).1 == param implies exists|a: int|
                            0 <= a < doomed.len() && doomed[a] == links[j] by {
                        if j < k {
                            let a = choose|a: int| 0 <= a < before.len() && before[a] == links[j];
                            assert(doomed[a] == links[j]);
                        } else {
                            assert(doomed[before.len() as int] == links[j]);
                        }
                    }
                }
            }
            k += 1;
        }
        proof {
            assert(link_inputs(doomed@) =~= self@.links_of_output(param).dom());
        }
        self.unlink(&doomed);
        let ghost mid = self@;
        let owner = self.outputs.get(&param.key).unwrap().node;
        proof {
            assert(self@.outputs[param].node == owner);
            assert(self@.nodes.contains_key(owner));
            assert(self@.output_keys().contains(param.key));
        }
        let mut node = self.nodes.remove(&owner.key).unwrap();
        let ghost before = node@;
        proof {
            assert(before == old(self)@.nodes[owner]);
            let j = choose|j: int|
                0 <= j < before.output_ids().len() && before.output_ids()[j] == param;
            assert(node.outputs[j].1 == param);
        }
        let at = output_position(&node.outputs, param);
        node.outputs.remove(at);
        proof {
            assert forall|j: int| 0 <= j < before.outputs.len() && j != at implies other_than(
                param,
            )(before.outputs[j]) by {
                assert(before.output_ids()[j] != before.output_ids()[at as int]);
            }
            lemma_filter_removes_one(before.outputs, other_than(param), at as int);
            assert(node@.outputs =~= before.outputs.remove(at as int));
            assert(node@ == before.without_output(param));
        }
        self.nodes.insert(owner.key, node);
        self.outputs.remove(&param.key);
        arena_remove(&mut self.output_keys, param.key);
        proof {
            let old_view = old(self)@;
            let new_view = final(self)@;
            let goal = old_view.without_output(param);
            assert(new_view.nodes =~= goal.nodes);
            assert(new_view.inputs =~= goal.inputs);
            assert(new_view.outputs =~= goal.outputs);
            assert(new_view.connections =~= goal.connections);
            old_view.lemma_without_output_wf(param);
        }
    }

    /// Whether the listed connection has an end on a port of the node.
    spec fn link_touches(&self, link: (InputId, OutputId), node_id: NodeId) -> bool {
        self.inputs@[link.0.key].node == node_id || self.outputs@[link.1.key].node == node_id
    }

    /// The connections that have an end on a port of the node, in the order
    /// of the inputs' slots.
    fn links_touching(&self, node_id: NodeId) -> (found: Vec<(InputId, OutputId)>)
        requires
            self.wf(),
        ensures
            link_listing(found@, self@.links_of_node(node_id)),
    {
        let links = self.iter_connections();
        let mut found: Vec<(InputId, OutputId)> = Vec::new();
        let ghost mut origin: Seq<int> = Seq::empty();
        proof {
            assert forall|j: int| 0 <= j < links.len() implies self.inputs@.contains_key(
                (#[trigger] links[j]).0.key,
            ) && self.outputs@.contains_key(links[j].1.key) by {
                assert(self@.connections.contains_key(links[j].0));
            }
        }
        let mut k: usize = 0;
        while k < links.len()
            invariant
                k <= links.len(),
                origin.len() == found.len(),
                forall|j: int|
                    0 <= j < links.len() ==> self.inputs@.contains_key((#[trigger] links[j]).0.key)
                        && self.outputs@.contains_key(links[j].1.key),
                forall|a: int|
                    0 <= a < found.len() ==> 0 <= #[trigger] origin[a] < k && found[a]
                        == links[origin[a]] && self.link_touches(found[a], node_id),
                forall|a: int, b: int|
                    0 <= a < b < found.len() ==> #[trigger] origin[a] < #[trigger] origin[b],
                forall|j: int|
                    0 <= j < k && self.link_touches(#[trigger] links[j], node_id) ==> exists|
                        a: int,
                    | 0 <= a < found.len() && #[trigger] origin[a] == j,
            decreases links.len() - k,
        {
            let link = links[k];
            let input_node = self.inputs.get(&link.0.key).unwrap().node;
            let output_node = self.outputs.get(&link.1.key).unwrap().node;
            if output_node == node_id || input_node == node_id {
                let ghost before = origin;
                found.push(link);
                proof {
                    origin = origin.push(k as int);
                    assert forall|a: int| 0 <= a < found.len() implies 0 <= #[trigger] origin[a] < k
                        + 1 && found[a] == links[origin[a]] && self.link_touches(
                        found[a],
                        node_id,
                    ) by {
                        if a < before.len() {
                            assert(origin[a] == before[a]);
                        } else {
                            assert(found[a] == link);
                        }
                    }
                    assert forall|a: int, b: int| 0 <= a < b < found.len() implies
                        #[trigger] origin[a]
                        < #[trigger] origin[b] by {
                        assert(origin[a] == before[a]);
                        if b < before.len() {
                            assert(origin[b] == before[b]);
                        }
                    }
                    assert forall|j: int|
                        0 <= j < k + 1 && self.link_touches(
                            #[trigger] links[j],
                            node_id,
                        ) implies exists|a: int|
                        0 <= a < found.len() && #[trigger] origin[a] == j by {
                        if j < k {
                            let a = choose|a: int|
                                0 <= a < before.len() && #[trigger] before[a] == j;
                            assert(origin[a] == j);
                        } else {
                            assert(origin[before.len() as int] == j);
                        }
                    }
                }
            }
            k += 1;
        }
        proof {
            let touching = self@.links_of_node(node_id);
            assert forall|j: int| 0 <= j < found.len() implies touching.contains_key(
                (#[trigger] found[j]).0,
            ) && touching[found[j].0] == found[j].1 by {
                let n = origin[j];
                assert(self@.connections.contains_key(links[n].0));
            }
            assert forall|i: InputId| touching.contains_key(i) implies exists|a: int|
                0 <= a < found.len() && (#[trigger] found[a]).0 == i by {
                let j = choose|j: int| 0 <= j < links.len() && (#[trigger] links[j]).0 == i;
                assert(self.link_touches(links[j], node_id));
                let a = choose|a: int| 0 <= a < found.len() && #[trigger] origin[a] == j;
                assert(found[a].0 == i);
            }
            assert forall|a: int, b: int| 0 <= a < b < found.len() implies slot_index(
                (#[trigger] found[a]).0.key,
            ) < slot_index((#[trigger] found[b]).0.key) by {
                assert(origin[a] < origin[b]);
                assert(found[a] == links[origin[a]]);
                assert(found[b] == links[origin[b]]);
            }
        }
        found
    }

    /// Removes a node with its ports and every connection that has an end on
    /// one of them. Returns the node and those connections, each as its input
    /// and output, in the order of the inputs' slots.
    pub fn remove_node(&mut self, node_id: NodeId) -> (removed: (
        Node<NodeData>,
        Vec<(InputId, OutputId)>,
    ))
        requires
            old(self).wf(),
            old(self)@.nodes.contains_key(node_id),
        ensures
            final(self).wf(),
            final(self)@ == old(self)@.without_node(node_id),
            removed.0@ == old(self)@.nodes[node_id],
            link_listing(removed.1@, old(self)@.links_of_node(node_id)),
            forall|i: InputId| #[trigger]
                final(self)@.connections.contains_key(i) ==> !old(self)@.touches(i, node_id),
    {
        let doomed = self.links_touching(node_id);
        let ghost view = old(self)@;
        proof {
            assert(link_inputs(doomed@) =~= view.links_of_node(node_id).dom());
        }
        self.unlink(&doomed);
        let node = self.nodes.remove(&node_id.key).unwrap();
        let input_keys = input_port_keys(&node.inputs);
        let output_keys = output_port_keys(&node.outputs);
        proof {
            assert(node@ == view.nodes[node_id]);
            assert forall|a: int, b: int|
                0 <= a < input_keys.len() && 0 <= b < input_keys.len() && a
                    != b implies input_keys[a] != input_keys[b] by {
                assert(node@.input_ids()[a] != node@.input_ids()[b]);
            }
            assert forall|a: int, b: int|
                0 <= a < output_keys.len() && 0 <= b < output_keys.len() && a
                    != b implies output_keys[a] != output_keys[b] by {
                assert(node@.output_ids()[a] != node@.output_ids()[b]);
            }
            assert forall|j: int| 0 <= j < input_keys.len() implies self.inputs@.contains_key(
                #[trigger] input_keys[j],
            ) by {
                assert(view.inputs.contains_key(view.nodes[node_id].inputs[j].1));
            }
            assert forall|j: int| 0 <= j < output_keys.len() implies self.outputs@.contains_key(
                #[trigger] output_keys[j],
            ) by {
                assert(view.outputs.contains_key(view.nodes[node_id].outputs[j].1));
            }
        }
        drop_keys(&mut self.inputs, &mut self.input_keys, &input_keys);
        drop_keys(&mut self.outputs, &mut self.output_keys, &output_keys);
        arena_remove(&mut self.node_keys, node_id.key);
        proof {
            let new_view = final(self)@;
            let goal = view.without_node(node_id);
            assert forall|p: InputId| new_view.inputs.contains_key(p) == goal.inputs.contains_key(
                p,
            ) by {
                if view.inputs.contains_key(p) {
                    if view.inputs[p].node == node_id {
                        let a = choose|a: int|
                            0 <= a < view.nodes[node_id].input_ids().len()
                                && view.nodes[node_id].input_ids()[a] == p;
                        assert(input_keys[a] == p.key);
                    } else if input_keys@.contains(p.key) {
                        let a = choose|a: int| 0 <= a < input_keys.len() && input_keys[a] == p.key;
                        assert(view.nodes[node_id].inputs[a].1 == p);
                    }
                }
            }
            assert forall|p: OutputId|
                new_view.outputs.contains_key(p) == goal.outputs.contains_key(p) by {
                if view.outputs.contains_key(p) {
                    if view.outputs[p].node == node_id {
                        let a = choose|a: int|
                            0 <= a < view.nodes[node_id].output_ids().len()
                                && view.nodes[node_id].output_ids()[a] == p;
                        assert(output_keys[a] == p.key);
                    } else if output_keys@.contains(p.key) {
                        let a = choose|a: int|
                            0 <= a < output_keys.len() && output_keys[a] == p.key;
                        assert(view.nodes[node_id].outputs[a].1 == p);
                    }
                }
            }
            assert(new_view.nodes =~= goal.nodes);
            assert(new_view.inputs =~= goal.inputs);
            assert(new_view.outputs =~= goal.outputs);
            assert(new_view.connections =~= goal.connections);
            view.lemma_without_node_wf(node_id);
            view.lemma_without_node_links(node_id);
        }
        (node, doomed)
    }

    /// The key sets of the model are those of the arenas, and as large as the
    /// sets of identities.
    proof fn lemma_key_sets(&self)
        requires
            self.wf(),
        ensures
            self@.node_keys() == arena_keys(self.node_keys),
            self@.input_keys() == arena_keys(self.input_keys),
            self@.output_keys() == arena_keys(self.output_keys),
            self@.nodes.len() == arena_keys(self.node_keys).len(),
            self@.inputs.len() == arena_keys(self.input_keys).len(),
            self@.outputs.len() == arena_keys(self.output_keys).len(),
    {
        assert(self@.node_keys() =~= arena_keys(self.node_keys));
        assert(self@.input_keys() =~= arena_keys(self.input_keys));
        assert(self@.output_keys() =~= arena_keys(self.output_keys));
        let node_of = |k: u64| NodeId { key: k };
        let input_of = |k: u64| InputId { key: k };
        let output_of = |k: u64| OutputId { key: k };
        assert forall|id: NodeId| self@.nodes.dom().contains(id) implies exists|k: u64| #[trigger]
            node_of(k) == id by {
            assert(node_of(id.key) == id);
        }
        assert forall|id: InputId| self@.inputs.dom().contains(id) implies exists|k: u64|
            #[trigger] input_of(k) == id by {
            assert(input_of(id.key) == id);
        }
        assert forall|id: OutputId| self@.outputs.dom().contains(id) implies exists|k: u64|
            #[trigger] output_of(k) == id by {
            assert(output_of(id.key) == id);
        }
        lemma_rekeyed_len(self@.node_keys(), self@.nodes.dom(), node_of);
        lemma_rekeyed_len(self@.input_keys(), self@.inputs.dom(), input_of);
        lemma_rekeyed_len(self@.output_keys(), self@.outputs.dom(), output_of);
    }
}

impl<NodeData, DataType, ValueType> Default for Graph<NodeData, DataType, ValueType> {
    fn default() -> (graph: Self)
        ensures
            graph.wf(),
            graph@.nodes.dom() == Set::<NodeId>::empty(),
            graph@.inputs.dom() == Set::<InputId>::empty(),
            graph@.outputs.dom() == Set::<OutputId>::empty(),
            graph@.connections.dom() == Set::<InputId>::empty(),
    {
        Graph::new()
    }
}

impl<NodeData: Clone, DataType: Clone, ValueType: Clone> Clone for Graph<
    NodeData,
    DataType,
    ValueType,
> {
    /// A copy of the graph under the same identities, with clones of what
    /// the nodes and ports carry.
    fn clone(&self) -> (copy: Self)
        ensures
            self.wf() ==> copy.wf() && copy@.replicates(self@),
    {
        let node_keys = arena_key_list(&self.node_keys);
        let input_keys = arena_key_list(&self.input_keys);
        let output_keys = arena_key_list(&self.output_keys);
        let copy = Graph {
            node_keys: arena_clone(&self.node_keys),
            input_keys: arena_clone(&self.input_keys),
            output_keys: arena_clone(&self.output_keys),
            nodes: clone_store(&self.nodes, &node_keys),
            inputs: clone_store(&self.inputs, &input_keys),
            outputs: clone_store(&self.outputs, &output_keys),
            connections: table_clone(&self.connections),
        };
        proof {
            if self.wf() {
                assert(copy.nodes@.dom() =~= self.nodes@.dom()) by {
                    assert forall|k: u64| copy.nodes@.contains_key(k) == self.nodes@.contains_key(
                        k,
                    ) by {
                        if self.nodes@.contains_key(k) {
                            assert(node_keys@.to_set().contains(k));
                        }
                    }
                }
                assert(copy.inputs@.dom() =~= self.inputs@.dom()) by {
                    assert forall|k: u64|
                        copy.inputs@.contains_key(k) == self.inputs@.contains_key(k) by {
                        if self.inputs@.contains_key(k) {
                            assert(input_keys@.to_set().contains(k));
                        }
                    }
                }
                assert(copy.outputs@.dom() =~= self.outputs@.dom()) by {
                    assert forall|k: u64|
                        copy.outputs@.contains_key(k) == self.outputs@.contains_key(k) by {
                        if self.outputs@.contains_key(k) {
                            assert(output_keys@.to_set().contains(k));
                        }
                    }
                }
                assert(copy@.nodes.dom() =~= self@.nodes.dom());
                assert(copy@.inputs.dom() =~= self@.inputs.dom());
                assert(copy@.outputs.dom() =~= self@.outputs.dom());
                assert(copy@.connections =~= self@.connections);
                assert forall|n: NodeId| #[trigger] self@.nodes.contains_key(n) implies
                    node_replicated(
                    self@.nodes[n],
                    copy@.nodes[n],
                ) by {
                    assert(cloned(self.nodes@[n.key], copy.nodes@[n.key]));
                }
                assert forall|p: InputId| #[trigger] self@.inputs.contains_key(p) implies
                    copy@.inputs[p].id
                    == self@.inputs[p].id && copy@.inputs[p].node == self@.inputs[p].node
                    && input_copied(self@.inputs[p], copy@.inputs[p]) by {
                    assert(cloned(self.inputs@[p.key], copy.inputs@[p.key]));
                }
                assert forall|p: OutputId| #[trigger] self@.outputs.contains_key(p) implies
                    copy@.outputs[p].id
                    == self@.outputs[p].id && copy@.outputs[p].node == self@.outputs[p].node
                    && output_copied(self@.outputs[p], copy@.outputs[p]) by {
                    assert(cloned(self.outputs@[p.key], copy.outputs@[p.key]));
                }
                assert(copy@.replicates(self@));
                copy@.lemma_replica_wf(self@);
            }
        }
        copy
    }
}

impl<NodeData> Node<NodeData> {
    /// The identities of the node's input ports, in drawing order.
    pub fn input_ids(&self) -> (ids: Vec<InputId>)
        ensures
            ids@ == self@.input_ids(),
    {
        let mut ids: Vec<InputId> = Vec::new();
        let mut j: usize = 0;
        while j < self.inputs.len()
            invariant
                j <= self.inputs.len(),
                ids.len() == j,
                forall|a: int| 0 <= a < j ==> ids[a] == self.inputs[a].1,
            decreases self.inputs.len() - j,
        {
            ids.push(self.inputs[j].1);
            j += 1;
        }
        assert(ids@ =~= self@.input_ids());
        ids
    }

    /// The identities of the node's output ports, in drawing order.
    pub fn output_ids(&self) -> (ids: Vec<OutputId>)
        ensures
            ids@ == self@.output_ids(),
    {
        let mut ids: Vec<OutputId> = Vec::new();
        let mut j: usize = 0;
        while j < self.outputs.len()
            invariant
                j <= self.outputs.len(),
                ids.len() == j,
                forall|a: int| 0 <= a < j ==> ids[a] == self.outputs[a].1,
            decreases self.outputs.len() - j,
        {
            ids.push(self.outputs[j].1);
            j += 1;
        }
        assert(ids@ =~= self@.output_ids());
        ids
    }

    /// The node's input ports as the graph holds them, in drawing order.
    pub fn inputs<'a, DataType, ValueType>(
        &'a self,
        graph: &'a Graph<NodeData, DataType, ValueType>,
    ) -> (ports: Vec<&'a InputParam<DataType, ValueType>>)
        requires
            forall|j: int|
                0 <= j < self@.inputs.len() ==> graph@.inputs.contains_key(
                    (#[trigger] self@.inputs[j]).1,
                ),
        ensures
            ports.len() == self@.inputs.len(),
            forall|j: int|
                0 <= j < ports.len() ==> *(#[trigger] ports[j]) == graph@.inputs[self@.inputs[j].1],
    {
        let mut ports: Vec<&'a InputParam<DataType, ValueType>> = Vec::new();
        let mut j: usize = 0;
        while j < self.inputs.len()
            invariant
                j <= self.inputs.len(),
                ports.len() == j,
                forall|a: int|
                    0 <= a < self@.inputs.len() ==> graph@.inputs.contains_key(
                        (#[trigger] self@.inputs[a]).1,
                    ),
                forall|a: int|
                    0 <= a < j ==> *(#[trigger] ports[a]) == graph@.inputs[self@.inputs[a].1],
            decreases self.inputs.len() - j,
        {
            assert(self@.inputs[j as int].1 == self.inputs[j as int].1);
            ports.push(graph.get_input(self.inputs[j].1));
            j += 1;
        }
        ports
    }

    /// The node's output ports as the graph holds them, in drawing order.
    pub fn outputs<'a, DataType, ValueType>(
        &'a self,
        graph: &'a Graph<NodeData, DataType, ValueType>,
    ) -> (ports: Vec<&'a OutputParam<DataType>>)
        requires
            forall|j: int|
                0 <= j < self@.outputs.len() ==> graph@.outputs.contains_key(
                    (#[trigger] self@.outputs[j]).1,
                ),
        ensures
            ports.len() == self@.outputs.len(),
            forall|j: int|
                0 <= j < ports.len() ==> *(#[trigger] ports[j])
                    == graph@.outputs[self@.outputs[j].1],
    {
        let mut ports: Vec<&'a OutputParam<DataType>> = Vec::new();
        let mut j: usize = 0;
        while j < self.outputs.len()
            invariant
                j <= self.outputs.len(),
                ports.len() == j,
                forall|a: int|
                    0 <= a < self@.outputs.len() ==> graph@.outputs.contains_key(
                        (#[trigger] self@.outputs[a]).1,
                    ),
                forall|a: int|
                    0 <= a < j ==> *(#[trigger] ports[a]) == graph@.outputs[self@.outputs[a].1],
            decreases self.outputs.len() - j,
        {
            assert(self@.outputs[j as int].1 == self.outputs[j as int].1);
            ports.push(graph.get_output(self.outputs[j].1));
            j += 1;
        }
        ports
    }

    /// The first input port of that name.
    pub fn get_input(&self, name: &str) -> (found: Result<InputId, EguiGraphError>)
        ensures
            match found {
                Ok(id) => exists|at: int|
                    first_named(self@.inputs, name@, at) && (#[trigger] self@.inputs[at]).1 == id,
                Err(e) => !has_named(self@.inputs, name@) && no_parameter_named(e, self.id, name@),
            },
    {
        let wanted = name.to_owned();
        let mut j: usize = 0;
        while j < self.inputs.len()
            invariant
                j <= self.inputs.len(),
                wanted@ == name@,
                forall|a: int| 0 <= a < j ==> (#[trigger] self@.inputs[a]).0 != name@,
            decreases self.inputs.len() - j,
        {
            assert(self@.inputs[j as int] == (self.inputs[j as int].0@, self.inputs[j as int].1));
            if self.inputs[j].0 == wanted {
                assert(first_named(self@.inputs, name@, j as int));
                return Ok(self.inputs[j].1);
            }
            j += 1;
        }
        Err(EguiGraphError::NoParameterNamed(self.id, wanted))
    }

    /// The first output port of that name.
    pub fn get_output(&self, name: &str) -> (found: Result<OutputId, EguiGraphError>)
        ensures
            match found {
                Ok(id) => exists|at: int|
                    first_named(self@.outputs, name@, at) && (#[trigger] self@.outputs[at]).1 == id,
                Err(e) => !has_named(self@.outputs, name@) && no_parameter_named(
                    e,
                    self.id,
                    name@,
                ),
            },
    {
        let wanted = name.to_owned();
        let mut j: usize = 0;
        while j < self.outputs.len()
            invariant
                j <= self.outputs.len(),
                wanted@ == name@,
                forall|a: int| 0 <= a < j ==> (#[trigger] self@.outputs[a]).0 != name@,
            decreases self.outputs.len() - j,
        {
            assert(self@.outputs[j as int] == (
                self.outputs[j as int].0@,
                self.outputs[j as int].1,
            ));
            if self.outputs[j].0 == wanted {
                assert(first_named(self@.outputs, name@, j as int));
                return Ok(self.outputs[j].1);
            }
            j += 1;
        }
        Err(EguiGraphError::NoParameterNamed(self.id, wanted))
    }
}

} // verus!

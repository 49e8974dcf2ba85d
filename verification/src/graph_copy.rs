//! Copying nodes with their ports and connections: what a copy is, and the
//! operations that make one (`merge`, `duplicate_nodes`, `from_nodes`).

use crate::arena::slot_index;
use crate::graph::GraphView;
use crate::graph::InputParam;
use crate::graph::MAX_ITEMS;
use crate::graph::NodeView;
use crate::graph::OutputParam;
use crate::graph::lemma_filter_keeps_all;
use crate::graph::node_listing;
use crate::graph_impls::Graph;
use crate::id_type::InputId;
use crate::id_type::NodeId;
use crate::id_type::OutputId;
use std::collections::HashMap;
use vstd::prelude::*;

verus! {

/// The port `to` carries what the input port `from` carried.
pub open spec fn input_copied<DataType: Clone, ValueType: Clone>(
    from: InputParam<DataType, ValueType>,
    to: InputParam<DataType, ValueType>,
) -> bool {
    &&& to.kind == from.kind
    &&& to.shown_inline == from.shown_inline
    &&& cloned(from.typ, to.typ)
    &&& cloned(from.value, to.value)
}

/// The port `to` carries what the output port `from` carried.
pub open spec fn output_copied<DataType: Clone>(
    from: OutputParam<DataType>,
    to: OutputParam<DataType>,
) -> bool {
    cloned(from.typ, to.typ)
}

/// The node `to` is node `from` with a clone of the payload.
pub open spec fn node_replicated<NodeData: Clone>(
    from: NodeView<NodeData>,
    to: NodeView<NodeData>,
) -> bool {
    &&& to.id == from.id
    &&& to.label == from.label
    &&& to.inputs == from.inputs
    &&& to.outputs == from.outputs
    &&& cloned(from.user_data, to.user_data)
}

/// The nodes that were copied.
pub open spec fn sources(pairs: Seq<(NodeId, NodeId)>) -> Seq<NodeId> {
    Seq::new(pairs.len(), |k: int| pairs[k].0)
}

/// The nodes that the copying made.
pub open spec fn copies(pairs: Seq<(NodeId, NodeId)>) -> Seq<NodeId> {
    Seq::new(pairs.len(), |k: int| pairs[k].1)
}

/// The test that a node passes if the graph has it.
pub open spec fn is_node_of<NodeData, DataType, ValueType>(
    graph: GraphView<NodeData, DataType, ValueType>,
) -> spec_fn(NodeId) -> bool {
    |n: NodeId| graph.nodes.contains_key(n)
}

impl<NodeData: Clone, DataType: Clone, ValueType: Clone> GraphView<NodeData, DataType, ValueType> {
    /// Everything of `before` is still there and unchanged: nodes, ports,
    /// and what each input is connected to.
    pub open spec fn keeps(self, before: Self) -> bool {
        &&& forall|n: NodeId| #[trigger]
            before.nodes.contains_key(n) ==> self.nodes.contains_key(n) && self.nodes[n]
                == before.nodes[n]
        &&& forall|p: InputId| #[trigger]
            before.inputs.contains_key(p) ==> self.inputs.contains_key(p) && self.inputs[p]
                == before.inputs[p] && self.connection(p) == before.connection(p)
        &&& forall|p: OutputId| #[trigger]
            before.outputs.contains_key(p) ==> self.outputs.contains_key(p) && self.outputs[p]
                == before.outputs[p]
    }

    /// What is there beyond `before`: the listed nodes, and ports of theirs.
    pub open spec fn adds_only(self, before: Self, added: Seq<NodeId>) -> bool {
        &&& forall|n: NodeId| #[trigger]
            self.nodes.contains_key(n) ==> before.nodes.contains_key(n) || added.contains(n)
        &&& forall|p: InputId| #[trigger]
            self.inputs.contains_key(p) ==> before.inputs.contains_key(p) || added.contains(
                self.inputs[p].node,
            )
        &&& forall|p: OutputId| #[trigger]
            self.outputs.contains_key(p) ==> before.outputs.contains_key(p) || added.contains(
                self.outputs[p].node,
            )
    }

    /// Node `to` is a copy of node `from` of `src`: the same label, a clone
    /// of the payload, and port for port the same name with a clone of what
    /// the port carried.
    pub open spec fn node_copied(self, src: Self, from: NodeId, to: NodeId) -> bool {
        let a = src.nodes[from];
        let b = self.nodes[to];
        &&& self.nodes.contains_key(to)
        &&& b.label == a.label
        &&& cloned(a.user_data, b.user_data)
        &&& b.inputs.len() == a.inputs.len()
        &&& b.outputs.len() == a.outputs.len()
        &&& forall|j: int|
            0 <= j < a.inputs.len() ==> (#[trigger] b.inputs[j]).0 == a.inputs[j].0 && input_copied(
                src.inputs[a.inputs[j].1],
                self.inputs[b.inputs[j].1],
            )
        &&& forall|j: int|
            0 <= j < a.outputs.len() ==> (#[trigger] b.outputs[j]).0 == a.outputs[j].0
                && output_copied(src.outputs[a.outputs[j].1], self.outputs[b.outputs[j].1])
    }

    /// `self` is `src` under the same identities, with clones of what the
    /// nodes and ports carry.
    pub open spec fn replicates(self, src: Self) -> bool {
        &&& self.nodes.dom() == src.nodes.dom()
        &&& self.inputs.dom() == src.inputs.dom()
        &&& self.outputs.dom() == src.outputs.dom()
        &&& self.connections == src.connections
        &&& forall|n: NodeId| #[trigger]
            src.nodes.contains_key(n) ==> node_replicated(src.nodes[n], self.nodes[n])
        &&& forall|p: InputId| #[trigger]
            src.inputs.contains_key(p) ==> self.inputs[p].id == src.inputs[p].id
                && self.inputs[p].node == src.inputs[p].node && input_copied(
                src.inputs[p],
                self.inputs[p],
            )
        &&& forall|p: OutputId| #[trigger]
            src.outputs.contains_key(p) ==> self.outputs[p].id == src.outputs[p].id
                && self.outputs[p].node == src.outputs[p].node && output_copied(
                src.outputs[p],
                self.outputs[p],
            )
    }

    /// A replica of a well-formed graph is well-formed.
    pub proof fn lemma_replica_wf(self, src: Self)
        requires
            src.wf(),
            self.replicates(src),
        ensures
            self.wf(),
    {
        assert(self.node_keys() =~= src.node_keys());
        assert(self.input_keys() =~= src.input_keys());
        assert(self.output_keys() =~= src.output_keys());
        assert forall|n: NodeId| self.nodes.contains_key(n) implies (#[trigger] self.nodes[n]).id
            == n by {
            assert(src.nodes.contains_key(n));
        }
        assert forall|n: NodeId, j: int|
            self.nodes.contains_key(n) && 0 <= j < self.nodes[n].inputs.len() implies {
            let p = #[trigger] self.nodes[n].inputs[j].1;
            self.inputs.contains_key(p) && self.inputs[p].node == n
        } by {
            assert(src.nodes.contains_key(n));
            let p = src.nodes[n].inputs[j].1;
            assert(src.inputs.contains_key(p));
        }
        assert forall|n: NodeId, j: int|
            self.nodes.contains_key(n) && 0 <= j < self.nodes[n].outputs.len() implies {
            let p = #[trigger] self.nodes[n].outputs[j].1;
            self.outputs.contains_key(p) && self.outputs[p].node == n
        } by {
            assert(src.nodes.contains_key(n));
            let p = src.nodes[n].outputs[j].1;
            assert(src.outputs.contains_key(p));
        }
        assert forall|n: NodeId| self.nodes.contains_key(n) implies (#[trigger] self.nodes[
            n
        ]).input_ids().no_duplicates() by {
            assert(src.nodes.contains_key(n));
            assert(self.nodes[n].input_ids() =~= src.nodes[n].input_ids());
        }
        assert forall|n: NodeId| self.nodes.contains_key(n) implies (#[trigger] self.nodes[
            n
        ]).output_ids().no_duplicates() by {
            assert(src.nodes.contains_key(n));
            assert(self.nodes[n].output_ids() =~= src.nodes[n].output_ids());
        }
        assert forall|p: InputId| self.inputs.contains_key(p) implies {
            let port = #[trigger] self.inputs[p];
            &&& port.id == p
            &&& self.nodes.contains_key(port.node)
            &&& self.nodes[port.node].input_ids().contains(p)
        } by {
            assert(src.inputs.contains_key(p));
            let n = src.inputs[p].node;
            assert(src.nodes.contains_key(n));
            assert(self.nodes[n].input_ids() =~= src.nodes[n].input_ids());
        }
        assert forall|p: OutputId| self.outputs.contains_key(p) implies {
            let port = #[trigger] self.outputs[p];
            &&& port.id == p
            &&& self.nodes.contains_key(port.node)
            &&& self.nodes[port.node].output_ids().contains(p)
        } by {
            assert(src.outputs.contains_key(p));
            let n = src.outputs[p].node;
            assert(src.nodes.contains_key(n));
            assert(self.nodes[n].output_ids() =~= src.nodes[n].output_ids());
        }
    }

    /// Removing a node from a graph and from its replica leaves a graph and
    /// its replica.
    pub proof fn lemma_replica_without_node(self, src: Self, node: NodeId)
        requires
            self.wf(),
            self.replicates(src),
        ensures
            self.without_node(node).replicates(src.without_node(node)),
    {
        let a = self.without_node(node);
        let b = src.without_node(node);
        assert(a.nodes.dom() =~= b.nodes.dom());
        assert forall|p: InputId| a.inputs.contains_key(p) == b.inputs.contains_key(p) by {
            if src.inputs.contains_key(p) {
                assert(self.inputs.contains_key(p));
            }
        }
        assert forall|p: OutputId| a.outputs.contains_key(p) == b.outputs.contains_key(p) by {
            if src.outputs.contains_key(p) {
                assert(self.outputs.contains_key(p));
            }
        }
        assert(a.inputs.dom() =~= b.inputs.dom());
        assert(a.outputs.dom() =~= b.outputs.dom());
        assert forall|i: InputId|
            a.connections.contains_key(i) == b.connections.contains_key(i) by {
            if src.connections.contains_key(i) {
                let o = src.connections[i];
                assert(self.connections.contains_key(i));
                assert(self.inputs.contains_key(i));
                assert(self.outputs.contains_key(o));
                assert(src.inputs.contains_key(i));
                assert(src.outputs.contains_key(o));
                assert(self.inputs[i].node == src.inputs[i].node);
                assert(self.outputs[o].node == src.outputs[o].node);
            }
        }
        assert(a.connections =~= b.connections);
    }

    /// The input at place `j` of node `n`.
    pub open spec fn input_at(self, n: NodeId, j: int) -> InputId {
        self.nodes[n].inputs[j].1
    }

    /// The output at place `j` of node `n`.
    pub open spec fn output_at(self, n: NodeId, j: int) -> OutputId {
        self.nodes[n].outputs[j].1
    }

    /// The output that stands in the copy for output `o` of `src`: the one
    /// at the same place in the copy of its node. None where the node of
    /// `o` was not copied.
    pub open spec fn output_image(
        self,
        src: Self,
        pairs: Seq<(NodeId, NodeId)>,
        o: OutputId,
    ) -> Option<OutputId> {
        let owner = src.outputs[o].node;
        if sources(pairs).contains(owner) {
            let k = sources(pairs).index_of(owner);
            let j = src.nodes[owner].output_ids().index_of(o);
            Some(self.output_at(pairs[k].1, j))
        } else {
            None
        }
    }

    /// Each input of a copy is connected as the input that it copies was,
    /// through the copies: to the image of the output that drove that
    /// input, and to nothing where that output has no image.
    pub open spec fn links_copied(self, src: Self, pairs: Seq<(NodeId, NodeId)>) -> bool {
        forall|k: int, j: int|
            0 <= k < pairs.len() && 0 <= j < src.nodes[pairs[k].0].inputs.len() ==> {
                let to = #[trigger] self.input_at(pairs[k].1, j);
                self.connection(to) == match src.connection(src.input_at(pairs[k].0, j)) {
                    Some(o) => self.output_image(src, pairs, o),
                    None => None,
                }
            }
    }

    /// `self` is `before` with a copy of the listed nodes of `src`: for each
    /// pair, the second is a new node that copies the first.
    pub open spec fn is_copy(self, before: Self, src: Self, pairs: Seq<(NodeId, NodeId)>) -> bool {
        &&& sources(pairs).no_duplicates()
        &&& copies(pairs).no_duplicates()
        &&& forall|k: int|
            0 <= k < pairs.len() ==> src.nodes.contains_key((#[trigger] pairs[k]).0)
                && !before.nodes.contains_key(pairs[k].1)
        &&& self.keeps(before)
        &&& self.adds_only(before, copies(pairs))
        &&& forall|k: int|
            0 <= k < pairs.len() ==> self.node_copied(src, (#[trigger] pairs[k]).0, pairs[k].1)
        &&& self.links_copied(src, pairs)
    }

    /// In a copy, an input is connected if and only if the input that it
    /// copies was connected to an output of a node that was copied too.
    pub proof fn lemma_copy_links_inside(
        self,
        before: Self,
        src: Self,
        pairs: Seq<(NodeId, NodeId)>,
        k: int,
        j: int,
    )
        requires
            self.is_copy(before, src, pairs),
            0 <= k < pairs.len(),
            0 <= j < src.nodes[pairs[k].0].inputs.len(),
        ensures
            self.connections.contains_key(self.input_at(pairs[k].1, j)) <==> {
                let from = src.input_at(pairs[k].0, j);
                src.connections.contains_key(from) && sources(pairs).contains(
                    src.outputs[src.connections[from]].node,
                )
            },
    {
        let to = self.input_at(pairs[k].1, j);
        assert(self.connection(to) == match src.connection(src.input_at(pairs[k].0, j)) {
            Some(o) => self.output_image(src, pairs, o),
            None => None,
        });
    }

    /// How many input ports the listed nodes have together.
    pub open spec fn input_total(self, nodes: Seq<NodeId>) -> nat
        decreases nodes.len(),
    {
        if nodes.len() == 0 {
            0
        } else {
            self.input_total(nodes.drop_last()) + self.nodes[nodes.last()].inputs.len()
        }
    }

    /// How many output ports the listed nodes have together.
    pub open spec fn output_total(self, nodes: Seq<NodeId>) -> nat
        decreases nodes.len(),
    {
        if nodes.len() == 0 {
            0
        } else {
            self.output_total(nodes.drop_last()) + self.nodes[nodes.last()].outputs.len()
        }
    }

    /// The first nodes of a list have no more ports together than the whole
    /// list has.
    pub proof fn lemma_totals_grow(self, nodes: Seq<NodeId>, upto: int)
        requires
            0 <= upto <= nodes.len(),
        ensures
            self.input_total(nodes.take(upto)) <= self.input_total(nodes),
            self.output_total(nodes.take(upto)) <= self.output_total(nodes),
        decreases nodes.len(),
    {
        if upto == nodes.len() {
            assert(nodes.take(upto) =~= nodes);
        } else {
            self.lemma_totals_grow(nodes.drop_last(), upto);
            assert(nodes.drop_last().take(upto) =~= nodes.take(upto));
        }
    }

    /// The inputs whose node is listed.
    pub open spec fn inputs_of(self, nodes: Seq<NodeId>) -> Set<InputId> {
        Set::new(|p: InputId| self.inputs.contains_key(p) && nodes.contains(self.inputs[p].node))
    }

    /// The outputs whose node is listed.
    pub open spec fn outputs_of(self, nodes: Seq<NodeId>) -> Set<OutputId> {
        Set::new(|p: OutputId| self.outputs.contains_key(p) && nodes.contains(self.outputs[p].node))
    }

    /// Distinct nodes of a graph have no more inputs together than the graph
    /// has.
    pub proof fn lemma_input_total(self, nodes: Seq<NodeId>)
        requires
            self.wf(),
            nodes.no_duplicates(),
            forall|k: int| 0 <= k < nodes.len() ==> self.nodes.contains_key(#[trigger] nodes[k]),
        ensures
            self.input_total(nodes) == self.inputs_of(nodes).len(),
            self.inputs_of(nodes).finite(),
            self.input_total(nodes) <= self.inputs.len(),
        decreases nodes.len(),
    {
        let all = self.inputs_of(nodes);
        assert(all.subset_of(self.inputs.dom()));
        vstd::set_lib::lemma_len_subset(all, self.inputs.dom());
        if nodes.len() == 0 {
            assert(all =~= Set::<InputId>::empty());
        } else {
            let front = nodes.drop_last();
            let last = nodes.last();
            self.lemma_input_total(front);
            let own = self.nodes[last].input_ids();
            assert forall|p: InputId| own.to_set().contains(p) implies self.inputs.contains_key(p)
                && self.inputs[p].node == last by {
                let j = choose|j: int| 0 <= j < own.len() && own[j] == p;
                assert(self.nodes[last].inputs[j].1 == p);
            }
            assert forall|p: InputId| all.contains(p)
                == (self.inputs_of(front) + own.to_set()).contains(
                p,
            ) by {
                if all.contains(p) {
                    let n = self.inputs[p].node;
                    let k = choose|k: int| 0 <= k < nodes.len() && nodes[k] == n;
                    if k < front.len() {
                        assert(front[k] == n);
                    } else {
                        assert(self.nodes[n].input_ids().contains(p));
                    }
                }
                if self.inputs_of(front).contains(p) {
                    let n = self.inputs[p].node;
                    let k = choose|k: int| 0 <= k < front.len() && front[k] == n;
                    assert(nodes[k] == n);
                }
                if own.to_set().contains(p) {
                    assert(nodes[nodes.len() - 1] == last);
                }
            }
            assert(all =~= self.inputs_of(front) + own.to_set());
            assert(self.inputs_of(front).disjoint(own.to_set())) by {
                assert forall|p: InputId|
                    !(self.inputs_of(front).contains(p) && own.to_set().contains(p)) by {
                    if self.inputs_of(front).contains(p) && own.to_set().contains(p) {
                        let k = choose|k: int| 0 <= k < front.len() && front[k] == last;
                        assert(nodes[k] == nodes[nodes.len() - 1]);
                    }
                }
            }
            own.unique_seq_to_set();
            vstd::seq_lib::seq_to_set_is_finite(own);
            vstd::set_lib::lemma_set_disjoint_lens(self.inputs_of(front), own.to_set());
        }
    }

    /// Distinct nodes of a graph have no more outputs together than the
    /// graph has.
    pub proof fn lemma_output_total(self, nodes: Seq<NodeId>)
        requires
            self.wf(),
            nodes.no_duplicates(),
            forall|k: int| 0 <= k < nodes.len() ==> self.nodes.contains_key(#[trigger] nodes[k]),
        ensures
            self.output_total(nodes) == self.outputs_of(nodes).len(),
            self.outputs_of(nodes).finite(),
            self.output_total(nodes) <= self.outputs.len(),
        decreases nodes.len(),
    {
        let all = self.outputs_of(nodes);
        assert(all.subset_of(self.outputs.dom()));
        vstd::set_lib::lemma_len_subset(all, self.outputs.dom());
        if nodes.len() == 0 {
            assert(all =~= Set::<OutputId>::empty());
        } else {
            let front = nodes.drop_last();
            let last = nodes.last();
            self.lemma_output_total(front);
            let own = self.nodes[last].output_ids();
            assert forall|p: OutputId|
                own.to_set().contains(p) implies self.outputs.contains_key(p)
                && self.outputs[p].node == last by {
                let j = choose|j: int| 0 <= j < own.len() && own[j] == p;
                assert(self.nodes[last].outputs[j].1 == p);
            }
            assert forall|p: OutputId|
                all.contains(p) == (self.outputs_of(front) + own.to_set()).contains(p) by {
                if all.contains(p) {
                    let n = self.outputs[p].node;
                    let k = choose|k: int| 0 <= k < nodes.len() && nodes[k] == n;
                    if k < front.len() {
                        assert(front[k] == n);
                    } else {
                        assert(self.nodes[n].output_ids().contains(p));
                    }
                }
                if self.outputs_of(front).contains(p) {
                    let n = self.outputs[p].node;
                    let k = choose|k: int| 0 <= k < front.len() && front[k] == n;
                    assert(nodes[k] == n);
                }
                if own.to_set().contains(p) {
                    assert(nodes[nodes.len() - 1] == last);
                }
            }
            assert(all =~= self.outputs_of(front) + own.to_set());
            assert(self.outputs_of(front).disjoint(own.to_set())) by {
                assert forall|p: OutputId|
                    !(self.outputs_of(front).contains(p) && own.to_set().contains(p)) by {
                    if self.outputs_of(front).contains(p) && own.to_set().contains(p) {
                        let k = choose|k: int| 0 <= k < front.len() && front[k] == last;
                        assert(nodes[k] == nodes[nodes.len() - 1]);
                    }
                }
            }
            own.unique_seq_to_set();
            vstd::seq_lib::seq_to_set_is_finite(own);
            vstd::set_lib::lemma_set_disjoint_lens(self.outputs_of(front), own.to_set());
        }
    }
}

impl<NodeData: Clone, DataType: Clone, ValueType: Clone> Graph<NodeData, DataType, ValueType> {
    /// Copies every node, port and connection of `other` into this graph,
    /// under new identities. Returns each node of `other` with its copy, in
    /// the order of the slots of `other`.
    pub fn merge(&mut self, other: &Self) -> (pairs: Vec<(NodeId, NodeId)>)
        requires
            old(self).wf(),
            other.wf(),
            old(self)@.nodes.len() + other@.nodes.len() <= MAX_ITEMS,
            old(self)@.inputs.len() + other@.inputs.len() <= MAX_ITEMS,
            old(self)@.outputs.len() + other@.outputs.len() <= MAX_ITEMS,
        ensures
            final(self).wf(),
            final(self)@.is_copy(old(self)@, other@, pairs@),
            node_listing(sources(pairs@), other@.nodes.dom()),
    {
        let ids = other.iter_nodes();
        proof {
            assert(ids@.no_duplicates()) by {
                assert forall|a: int, b: int|
                    0 <= a < ids.len() && 0 <= b < ids.len() && a != b implies ids[a] != ids[b] by {
                    if a < b {
                        assert(slot_index(ids[a].key) < slot_index(ids[b].key));
                    } else {
                        assert(slot_index(ids[b].key) < slot_index(ids[a].key));
                    }
                }
            }
            ids@.unique_seq_to_set();
            assert forall|k: int| 0 <= k < ids.len() implies other@.nodes.contains_key(
                #[trigger] ids[k],
            ) by {
                assert(ids@.to_set().contains(ids[k]));
            }
            other@.lemma_input_total(ids@);
            other@.lemma_output_total(ids@);
        }
        self.copy_nodes(Some(other), &ids)
    }

    /// Copies the listed nodes of this graph, with their ports, under new
    /// identities; a connection is copied where both its ends are on listed
    /// nodes. Identities that the graph does not have are passed over.
    /// Returns each node that was copied with its copy, in the order of the
    /// list.
    pub fn duplicate_nodes(&mut self, node_ids: &Vec<NodeId>) -> (pairs: Vec<(NodeId, NodeId)>)
        requires
            old(self).wf(),
            node_ids@.no_duplicates(),
            old(self)@.nodes.len() + node_ids.len() <= MAX_ITEMS,
            2 * old(self)@.inputs.len() <= MAX_ITEMS,
            2 * old(self)@.outputs.len() <= MAX_ITEMS,
        ensures
            final(self).wf(),
            final(self)@.is_copy(old(self)@, old(self)@, pairs@),
            sources(pairs@) == node_ids@.filter(is_node_of(old(self)@)),
            (forall|k: int|
                0 <= k < node_ids.len() ==> old(self)@.nodes.contains_key(#[trigger] node_ids[k]))
                ==> sources(pairs@) == node_ids@,
    {
        let ghost live_test = is_node_of(self@);
        let mut live: Vec<NodeId> = Vec::new();
        let mut k: usize = 0;
        proof {
            reveal(Seq::filter);
            assert(node_ids@.take(0).filter(live_test) =~= Seq::<NodeId>::empty());
        }
        while k < node_ids.len()
            invariant
                k <= node_ids.len(),
                live_test == is_node_of(self@),
                live@ == node_ids@.take(k as int).filter(live_test),
                live.len() <= k,
                forall|a: int|
                    0 <= a < live.len() ==> self@.nodes.contains_key(#[trigger] live[a])
                        && exists|j: int| 0 <= j < k && node_ids[j] == live[a],
                live@.no_duplicates(),
                node_ids@.no_duplicates(),
            decreases node_ids.len() - k,
        {
            let id = node_ids[k];
            let ghost before = live@;
            proof {
                reveal(Seq::filter);
                assert(node_ids@.take(k + 1).drop_last() =~= node_ids@.take(k as int));
                assert(node_ids@.take(k + 1).last() == id);
            }
            if self.try_get_node(id).is_some() {
                proof {
                    assert(!before.contains(id)) by {
                        if before.contains(id) {
                            let a = choose|a: int| 0 <= a < before.len() && before[a] == id;
                            let j = choose|j: int| 0 <= j < k && node_ids[j] == live[a];
                            assert(node_ids[j] == node_ids[k as int]);
                        }
                    }
                }
                live.push(id);
                proof {
                    assert forall|a: int| 0 <= a < live.len() implies self@.nodes.contains_key(
                        #[trigger] live[a],
                    ) && exists|j: int| 0 <= j < k + 1 && node_ids[j] == live[a] by {
                        if a < before.len() {
                            assert(live[a] == before[a]);
                            let j = choose|j: int| 0 <= j < k && node_ids[j] == before[a];
                            assert(node_ids[j] == live[a]);
                        } else {
                            assert(node_ids[k as int] == live[a]);
                        }
                    }
                }
            }
            k += 1;
        }
        proof {
            assert(node_ids@.take(node_ids.len() as int) =~= node_ids@);
            self@.lemma_input_total(live@);
            self@.lemma_output_total(live@);
            if forall|k: int|
                0 <= k < node_ids.len() ==> self@.nodes.contains_key(#[trigger] node_ids[k]) {
                assert forall|k: int| 0 <= k < node_ids.len() implies live_test(node_ids@[k]) by {
                    assert(self@.nodes.contains_key(node_ids[k]));
                }
                lemma_filter_keeps_all(node_ids@, live_test);
            }
        }
        self.copy_nodes(None, &live)
    }

    /// Copies one node of this graph with its ports, under new identities.
    /// Returns the copy, or nothing where the graph does not have the node.
    pub fn duplicate_node(&mut self, node_id: NodeId) -> (copy: Option<NodeId>)
        requires
            old(self).wf(),
            old(self)@.nodes.len() < MAX_ITEMS,
            2 * old(self)@.inputs.len() <= MAX_ITEMS,
            2 * old(self)@.outputs.len() <= MAX_ITEMS,
        ensures
            final(self).wf(),
            match copy {
                Some(to) => old(self)@.nodes.contains_key(node_id) && final(self)@.is_copy(
                    old(self)@,
                    old(self)@,
                    seq![(node_id, to)],
                ),
                None => !old(self)@.nodes.contains_key(node_id) && final(self)@ == old(self)@,
            },
    {
        if self.try_get_node(node_id).is_none() {
            return None;
        }
        let mut ids: Vec<NodeId> = Vec::new();
        ids.push(node_id);
        proof {
            reveal(Seq::filter);
            assert(ids@ =~= seq![node_id]);
            assert(ids@.drop_last() =~= Seq::<NodeId>::empty());
            assert(ids@.drop_last().filter(is_node_of(self@)) =~= Seq::<NodeId>::empty());
            assert(ids@.filter(is_node_of(self@)) =~= seq![node_id]);
        }
        let pairs = self.duplicate_nodes(&ids);
        proof {
            assert(sources(pairs@).len() == 1);
            assert(sources(pairs@)[0] == node_id);
            assert(pairs@ =~= seq![(node_id, pairs[0].1)]);
        }
        Some(pairs[0].1)
    }
}

/// Whether the list holds the node.
fn lists_node(ids: &Vec<NodeId>, id: NodeId) -> (found: bool)
    ensures
        found == ids@.contains(id),
{
    let mut j: usize = 0;
    while j < ids.len()
        invariant
            j <= ids.len(),
            forall|a: int| 0 <= a < j ==> ids[a] != id,
        decreases ids.len() - j,
    {
        if ids[j] == id {
            return true;
        }
        j += 1;
    }
    false
}

impl<NodeData: Clone, DataType: Clone, ValueType: Clone> Graph<NodeData, DataType, ValueType> {
    /// The part of the graph on the listed nodes, as a graph of its own,
    /// under the same identities: the listed nodes that the graph has, their
    /// ports, and the connections between them.
    pub fn from_nodes(&self, node_ids: &Vec<NodeId>) -> (part: Self)
        requires
            self.wf(),
        ensures
            part.wf(),
            part@.replicates(self@.restricted_to(node_ids@.to_set())),
    {
        let mut part = self.clone();
        let ids = self.iter_nodes();
        let ghost keep = node_ids@.to_set();
        proof {
            assert(ids@.skip(0) =~= ids@);
            self@.lemma_restricted_to_all(keep + ids@.skip(0).to_set());
        }
        let mut k: usize = 0;
        while k < ids.len()
            invariant
                k <= ids.len(),
                self.wf(),
                part.wf(),
                keep == node_ids@.to_set(),
                node_listing(ids@, self@.nodes.dom()),
                part@.replicates(self@.restricted_to(keep + ids@.skip(k as int).to_set())),
            decreases ids.len() - k,
        {
            let id = ids[k];
            let ghost now = keep + ids@.skip(k as int).to_set();
            let ghost next = keep + ids@.skip(k + 1).to_set();
            proof {
                assert(ids@.skip(k as int)[0] == id);
                assert(ids@.skip(k as int).to_set().contains(id));
                assert(ids@.to_set().contains(id));
                let rest = ids@.skip(k as int);
                let tail = ids@.skip(k + 1);
                assert forall|n: NodeId| tail.to_set().contains(n) implies n != id
                    && rest.to_set().contains(n) by {
                    let a = choose|a: int| 0 <= a < tail.len() && tail[a] == n;
                    assert(ids[a + k + 1] == n);
                    assert(slot_index(ids[k as int].key) < slot_index(ids[a + k + 1].key));
                    assert(rest[a + 1] == n);
                }
                assert forall|n: NodeId|
                    rest.to_set().contains(n) && n != id implies tail.to_set().contains(n) by {
                    let a = choose|a: int| 0 <= a < rest.len() && rest[a] == n;
                    assert(tail[a - 1] == n);
                }
            }
            if !lists_node(node_ids, id) {
                proof {
                    assert(next =~= now.remove(id));
                    self@.lemma_restricted_without(now, id);
                    part@.lemma_replica_without_node(self@.restricted_to(now), id);
                }
                part.remove_node(id);
            } else {
                proof {
                    assert(next =~= now);
                }
            }
            k += 1;
        }
        proof {
            assert(keep + ids@.skip(ids.len() as int).to_set() =~= keep);
        }
        part
    }
}

/// The graph that a copy reads from: `other`, or the target itself where
/// there is no other.
pub open spec fn source_of<NodeData, DataType, ValueType>(
    target: Graph<NodeData, DataType, ValueType>,
    other: Option<&Graph<NodeData, DataType, ValueType>>,
) -> Graph<NodeData, DataType, ValueType> {
    match other {
        Some(graph) => *graph,
        None => target,
    }
}

/// Whether the connection `link`, from an output of the source to an input
/// of the copy `to`, is owed: some input of `from` is driven by that output,
/// and the input of `to` at the same place is the one named.
pub open spec fn owed_link<NodeData: Clone, DataType: Clone, ValueType: Clone>(
    snap: GraphView<NodeData, DataType, ValueType>,
    after: GraphView<NodeData, DataType, ValueType>,
    from: NodeId,
    to: NodeId,
    upto: int,
    link: (InputId, OutputId),
) -> bool {
    exists|j: int|
        0 <= j < upto && link.0 == #[trigger] after.input_at(to, j) && snap.connection(
            snap.input_at(from, j),
        ) == Some(link.1)
}

/// What holds while nodes are being copied, before the copies are
/// connected: `cur` is `before` with an unconnected copy of each node listed
/// so far, `pending` holds the connections that the copies are owed, and
/// `table` has the image of every output of the nodes copied so far.
spec fn copying<NodeData: Clone, DataType: Clone, ValueType: Clone>(
    cur: GraphView<NodeData, DataType, ValueType>,
    before: GraphView<NodeData, DataType, ValueType>,
    snap: GraphView<NodeData, DataType, ValueType>,
    pairs: Seq<(NodeId, NodeId)>,
    pending: Seq<(InputId, OutputId)>,
    table: Map<u64, u64>,
) -> bool {
    &&& sources(pairs).no_duplicates()
    &&& copies(pairs).no_duplicates()
    &&& forall|k: int|
        0 <= k < pairs.len() ==> snap.nodes.contains_key((#[trigger] pairs[k]).0)
            && !before.nodes.contains_key(pairs[k].1)
    &&& cur.keeps(before)
    &&& cur.adds_only(before, copies(pairs))
    &&& forall|k: int|
        0 <= k < pairs.len() ==> cur.node_copied(snap, (#[trigger] pairs[k]).0, pairs[k].1)
    &&& cur.connections == before.connections
    &&& forall|e: (InputId, OutputId)|
        pending.contains(e) <==> exists|k: int|
            0 <= k < pairs.len() && owed_link(
                snap,
                cur,
                (#[trigger] pairs[k]).0,
                pairs[k].1,
                snap.nodes[pairs[k].0].inputs.len() as int,
                e,
            )
    &&& forall|o: OutputId|
        snap.outputs.contains_key(o) ==> (#[trigger] table.contains_key(o.key)
            <==> sources(pairs).contains(snap.outputs[o].node))
    &&& forall|o: OutputId|
        snap.outputs.contains_key(o) && #[trigger] table.contains_key(o.key)
            ==> cur.output_image(snap, pairs, o) == Some(OutputId { key: table[o.key] })
    &&& cur.nodes.len() == before.nodes.len() + pairs.len()
    &&& cur.inputs.len() == before.inputs.len() + snap.input_total(sources(pairs))
    &&& cur.outputs.len() == before.outputs.len() + snap.output_total(sources(pairs))
}

/// What input `j` of the copy at place `k` is to be connected to.
spec fn wanted<NodeData: Clone, DataType: Clone, ValueType: Clone>(
    cur: GraphView<NodeData, DataType, ValueType>,
    snap: GraphView<NodeData, DataType, ValueType>,
    pairs: Seq<(NodeId, NodeId)>,
    k: int,
    j: int,
) -> Option<OutputId> {
    match snap.connection(snap.input_at(pairs[k].0, j)) {
        Some(o) => cur.output_image(snap, pairs, o),
        None => None,
    }
}

/// Where a node stands among the sources, and where an output stands
/// among the outputs of its node, fixes the image of the output.
proof fn lemma_output_image<NodeData: Clone, DataType: Clone, ValueType: Clone>(
    cur: GraphView<NodeData, DataType, ValueType>,
    snap: GraphView<NodeData, DataType, ValueType>,
    pairs: Seq<(NodeId, NodeId)>,
    k: int,
    j: int,
)
    requires
        snap.wf(),
        sources(pairs).no_duplicates(),
        0 <= k < pairs.len(),
        snap.nodes.contains_key(pairs[k].0),
        0 <= j < snap.nodes[pairs[k].0].outputs.len(),
    ensures
        cur.output_image(snap, pairs, snap.output_at(pairs[k].0, j)) == Some(
            cur.output_at(pairs[k].1, j),
        ),
{
    let owner = pairs[k].0;
    let o = snap.output_at(owner, j);
    assert(snap.outputs.contains_key(snap.nodes[owner].outputs[j].1));
    assert(snap.outputs[o].node == owner);
    assert(sources(pairs)[k] == owner);
    let k2 = sources(pairs).index_of(owner);
    assert(sources(pairs)[k2] == sources(pairs)[k]);
    let ids = snap.nodes[owner].output_ids();
    assert(ids[j] == o);
    let j2 = ids.index_of(o);
    assert(ids[j2] == ids[j]);
}

/// No input stands at two places among the ports of the copies.
proof fn lemma_copied_inputs_differ<NodeData: Clone, DataType: Clone, ValueType: Clone>(
    cur: GraphView<NodeData, DataType, ValueType>,
    pairs: Seq<(NodeId, NodeId)>,
    k: int,
    j: int,
    k2: int,
    j2: int,
)
    requires
        cur.wf(),
        copies(pairs).no_duplicates(),
        0 <= k < pairs.len(),
        0 <= k2 < pairs.len(),
        cur.nodes.contains_key(pairs[k].1),
        cur.nodes.contains_key(pairs[k2].1),
        0 <= j < cur.nodes[pairs[k].1].inputs.len(),
        0 <= j2 < cur.nodes[pairs[k2].1].inputs.len(),
        cur.input_at(pairs[k].1, j) == cur.input_at(pairs[k2].1, j2),
    ensures
        k == k2,
        j == j2,
{
    let p = cur.nodes[pairs[k].1].inputs[j].1;
    let q = cur.nodes[pairs[k2].1].inputs[j2].1;
    assert(cur.inputs[p].node == pairs[k].1);
    assert(cur.inputs[q].node == pairs[k2].1);
    assert(copies(pairs)[k] == copies(pairs)[k2]);
    let ids = cur.nodes[pairs[k].1].input_ids();
    assert(ids[j] == ids[j2]);
}

impl<NodeData: Clone, DataType: Clone, ValueType: Clone> Graph<NodeData, DataType, ValueType> {
    /// The graph that a copy reads from.
    fn source<'a>(&'a self, other: Option<&'a Self>) -> (src: &'a Self)
        ensures
            *src == source_of(*self, other),
    {
        match other {
            Some(graph) => graph,
            None => self,
        }
    }

    /// Adds a node without ports, with the label of node `from` of the
    /// source and a clone of its payload.
    fn copy_shell(&mut self, other: Option<&Self>, from: NodeId) -> (to: NodeId)
        requires
            old(self).wf(),
            source_of(*old(self), other)@.nodes.contains_key(from),
            old(self)@.nodes.len() < MAX_ITEMS,
        ensures
            final(self).wf(),
            !old(self)@.nodes.contains_key(to),
            final(self)@.nodes.dom() == old(self)@.nodes.dom().insert(to),
            forall|n: NodeId|
                old(self)@.nodes.contains_key(n) ==> final(self)@.nodes[n] == old(self)@.nodes[n],
            final(self)@.nodes[to].id == to,
            final(self)@.nodes[to].label == source_of(*old(self), other)@.nodes[from].label,
            final(self)@.nodes[to].inputs.len() == 0,
            final(self)@.nodes[to].outputs.len() == 0,
            cloned(
                source_of(*old(self), other)@.nodes[from].user_data,
                final(self)@.nodes[to].user_data,
            ),
            final(self)@.inputs == old(self)@.inputs,
            final(self)@.outputs == old(self)@.outputs,
            final(self)@.connections == old(self)@.connections,
    {
        let src = self.source(other);
        let node = src.get_node(from);
        let label = node.label.clone();
        let data = node.user_data.clone();
        self.add_node(label, data)
    }

    /// Gives node `to` a copy of each input port of node `from` of the
    /// source, in order, and notes the connections that the copies are owed.
    fn copy_inputs(
        &mut self,
        other: Option<&Self>,
        from: NodeId,
        to: NodeId,
        pending: &mut Vec<(InputId, OutputId)>,
        Ghost(snap): Ghost<GraphView<NodeData, DataType, ValueType>>,
    )
        requires
            old(self).wf(),
            snap.wf(),
            other matches Some(graph) ==> graph.wf() && graph@ == snap,
            other is None ==> old(self)@.keeps(snap) && !snap.nodes.contains_key(to),
            snap.nodes.contains_key(from),
            old(self)@.nodes.contains_key(to),
            old(self)@.nodes[to].inputs.len() == 0,
            old(self)@.inputs.len() + snap.nodes[from].inputs.len() <= MAX_ITEMS,
        ensures
            final(self).wf(),
            other is None ==> final(self)@.keeps(snap),
            final(self)@.outputs == old(self)@.outputs,
            final(self)@.connections == old(self)@.connections,
            final(self)@.nodes.dom() == old(self)@.nodes.dom(),
            forall|n: NodeId|
                old(self)@.nodes.contains_key(n) && n != to
                    ==> final(self)@.nodes[n] == old(self)@.nodes[n],
            final(self)@.nodes[to] == (NodeView {
                inputs: final(self)@.nodes[to].inputs,
                ..old(self)@.nodes[to]
            }),
            forall|p: InputId| #[trigger]
                old(self)@.inputs.contains_key(p)
                    ==> final(self)@.inputs.contains_key(p)
                        && final(self)@.inputs[p] == old(self)@.inputs[p],
            forall|p: InputId| #[trigger]
                final(self)@.inputs.contains_key(p)
                    ==> old(self)@.inputs.contains_key(p) || final(self)@.inputs[p].node == to,
            final(self)@.inputs.len() == old(self)@.inputs.len() + snap.nodes[from].inputs.len(),
            final(self)@.nodes[to].inputs.len() == snap.nodes[from].inputs.len(),
            forall|j: int|
                0 <= j < snap.nodes[from].inputs.len() ==> {
                    let p = (#[trigger] final(self)@.nodes[to].inputs[j]).1;
                    &&& final(self)@.nodes[to].inputs[j].0 == snap.nodes[from].inputs[j].0
                    &&& !old(self)@.inputs.contains_key(p)
                    &&& input_copied(snap.inputs[snap.input_at(from, j)], final(self)@.inputs[p])
                },
            forall|e: (InputId, OutputId)|
                final(pending)@.contains(e) <==> old(pending)@.contains(e) || owed_link(
                    snap,
                    final(self)@,
                    from,
                    to,
                    snap.nodes[from].inputs.len() as int,
                    e,
                ),
    {
        let count = self.source(other).get_node(from).inputs.len();
        let mut j: usize = 0;
        while j < count
            invariant
                j <= count,
                count == snap.nodes[from].inputs.len(),
                self.wf(),
                snap.wf(),
                other matches Some(graph) ==> graph.wf() && graph@ == snap,
                other is None ==> self@.keeps(snap) && !snap.nodes.contains_key(to),
                snap.nodes.contains_key(from),
                old(self)@.nodes.contains_key(to),
                old(self)@.inputs.len() + count <= MAX_ITEMS,
                self@.outputs == old(self)@.outputs,
                self@.connections == old(self)@.connections,
                self@.nodes.dom() == old(self)@.nodes.dom(),
                forall|n: NodeId|
                    old(self)@.nodes.contains_key(n) && n != to
                        ==> self@.nodes[n] == old(self)@.nodes[n],
                self@.nodes[to] == (NodeView {
                    inputs: self@.nodes[to].inputs,
                    ..old(self)@.nodes[to]
                }),
                forall|p: InputId| #[trigger]
                    old(self)@.inputs.contains_key(p) ==> self@.inputs.contains_key(p)
                        && self@.inputs[p] == old(self)@.inputs[p],
                forall|p: InputId| #[trigger]
                    self@.inputs.contains_key(p) ==> old(self)@.inputs.contains_key(p)
                        || self@.inputs[p].node == to,
                self@.inputs.len() == old(self)@.inputs.len() + j,
                self@.nodes[to].inputs.len() == j,
                forall|a: int|
                    0 <= a < j ==> {
                        let p = (#[trigger] self@.nodes[to].inputs[a]).1;
                        &&& self@.nodes[to].inputs[a].0 == snap.nodes[from].inputs[a].0
                        &&& !old(self)@.inputs.contains_key(p)
                        &&& input_copied(snap.inputs[snap.input_at(from, a)], self@.inputs[p])
                    },
                forall|e: (InputId, OutputId)|
                    pending@.contains(e) <==> old(pending)@.contains(e) || owed_link(
                        snap,
                        self@,
                        from,
                        to,
                        j as int,
                        e,
                    ),
            decreases count - j,
        {
            let ghost view = self@;
            let ghost listed = pending@;
            let src = self.source(other);
            let node = src.get_node(from);
            let name = node.inputs[j].0.clone();
            let copied = node.inputs[j].1;
            proof {
                assert(src@.nodes[from] == snap.nodes[from]);
                assert(snap.nodes[from].inputs[j as int] == (
                    node.inputs[j as int].0@,
                    node.inputs[j as int].1,
                ));
                assert(snap.inputs.contains_key(snap.nodes[from].inputs[j as int].1));
                assert(snap.inputs.contains_key(copied));
                assert(src@.inputs.contains_key(copied));
                assert(src@.inputs[copied] == snap.inputs[copied]);
                assert(src@.connection(copied) == snap.connection(copied));
            }
            let port = src.get_input(copied);
            let typ = port.typ.clone();
            let value = port.value.clone();
            let kind = port.kind;
            let shown_inline = port.shown_inline;
            let link = src.connection(copied);
            let id = self.add_input_param(to, name, typ, value, kind, shown_inline);
            if let Some(output) = link {
                pending.push((id, output));
            }
            proof {
                let grown = self@;
                assert(grown.nodes[to].inputs =~= view.nodes[to].inputs.push((name@, id)));
                assert(grown.nodes[to].inputs[j as int] == (name@, id));
                assert forall|a: int| 0 <= a < j + 1 implies {
                    let p = (#[trigger] grown.nodes[to].inputs[a]).1;
                    &&& grown.nodes[to].inputs[a].0 == snap.nodes[from].inputs[a].0
                    &&& !old(self)@.inputs.contains_key(p)
                    &&& input_copied(snap.inputs[snap.input_at(from, a)], grown.inputs[p])
                } by {
                    if a < j {
                        assert(grown.nodes[to].inputs[a] == view.nodes[to].inputs[a]);
                        let p = view.nodes[to].inputs[a].1;
                        assert(view.inputs.contains_key(p));
                    }
                }
                assert forall|e: (InputId, OutputId)|
                    pending@.contains(e) <==> old(pending)@.contains(e) || owed_link(
                        snap,
                        grown,
                        from,
                        to,
                        j + 1,
                        e,
                    ) by {
                    assert forall|a: int| 0 <= a < j implies grown.input_at(to, a)
                        == view.input_at(to, a) by {
                        assert(grown.nodes[to].inputs[a] == view.nodes[to].inputs[a]);
                    }
                    if owed_link(snap, view, from, to, j as int, e) {
                        let a = choose|a: int|
                            0 <= a < j && e.0 == #[trigger] view.input_at(to, a) && snap.connection(
                                snap.input_at(from, a),
                            ) == Some(e.1);
                        assert(e.0 == grown.input_at(to, a));
                    }
                    if owed_link(snap, grown, from, to, j + 1, e) {
                        let a = choose|a: int|
                            0 <= a < j + 1 && e.0 == #[trigger] grown.input_at(to, a)
                                && snap.connection(snap.input_at(from, a)) == Some(e.1);
                        if a < j {
                            assert(e.0 == view.input_at(to, a));
                            assert(owed_link(snap, view, from, to, j as int, e));
                        }
                    }
                    if link is Some {
                        assert(pending@ == listed.push((id, link->Some_0)));
                        assert(grown.input_at(to, j as int) == id);
                        if e == (id, link->Some_0) {
                            assert(pending@[listed.len() as int] == e);
                        }
                        if listed.contains(e) {
                            let s = choose|s: int| 0 <= s < listed.len() && listed[s] == e;
                            assert(pending@[s] == e);
                        }
                    }
                }
                if other is None {
                    assert(grown.keeps(snap));
                }
            }
            j += 1;
        }
    }
}

impl<NodeData: Clone, DataType: Clone, ValueType: Clone> Graph<NodeData, DataType, ValueType> {
    /// Gives node `to` a copy of each output port of node `from` of the
    /// source, in order, and notes in the table which output each stands for.
    fn copy_outputs(
        &mut self,
        other: Option<&Self>,
        from: NodeId,
        to: NodeId,
        table: &mut HashMap<u64, u64>,
        Ghost(snap): Ghost<GraphView<NodeData, DataType, ValueType>>,
    )
        requires
            old(self).wf(),
            snap.wf(),
            other matches Some(graph) ==> graph.wf() && graph@ == snap,
            other is None ==> old(self)@.keeps(snap) && !snap.nodes.contains_key(to),
            snap.nodes.contains_key(from),
            old(self)@.nodes.contains_key(to),
            old(self)@.nodes[to].outputs.len() == 0,
            old(self)@.outputs.len() + snap.nodes[from].outputs.len() <= MAX_ITEMS,
            forall|j: int|
                0 <= j < snap.nodes[from].outputs.len() ==> !old(table)@.contains_key(
                    #[trigger] snap.output_at(from, j).key,
                ),
        ensures
            final(self).wf(),
            other is None ==> final(self)@.keeps(snap),
            final(self)@.inputs == old(self)@.inputs,
            final(self)@.connections == old(self)@.connections,
            final(self)@.nodes.dom() == old(self)@.nodes.dom(),
            forall|n: NodeId|
                old(self)@.nodes.contains_key(n) && n != to
                    ==> final(self)@.nodes[n] == old(self)@.nodes[n],
            final(self)@.nodes[to] == (NodeView {
                outputs: final(self)@.nodes[to].outputs,
                ..old(self)@.nodes[to]
            }),
            forall|p: OutputId| #[trigger]
                old(self)@.outputs.contains_key(p) ==> final(self)@.outputs.contains_key(p)
                    && final(self)@.outputs[p] == old(self)@.outputs[p],
            forall|p: OutputId| #[trigger]
                final(self)@.outputs.contains_key(p) ==> old(self)@.outputs.contains_key(p)
                    || final(self)@.outputs[p].node == to,
            final(self)@.outputs.len() == old(self)@.outputs.len() + snap.nodes[from].outputs.len(),
            final(self)@.nodes[to].outputs.len() == snap.nodes[from].outputs.len(),
            forall|j: int|
                0 <= j < snap.nodes[from].outputs.len() ==> {
                    let p = (#[trigger] final(self)@.nodes[to].outputs[j]).1;
                    &&& final(self)@.nodes[to].outputs[j].0 == snap.nodes[from].outputs[j].0
                    &&& !old(self)@.outputs.contains_key(p)
                    &&& output_copied(
                        snap.outputs[snap.output_at(from, j)],
                        final(self)@.outputs[p],
                    )
                },
            forall|key: u64|
                final(table)@.contains_key(key) <==> old(table)@.contains_key(key) || exists|j: int|
                    0 <= j < snap.nodes[from].outputs.len() && #[trigger] snap.output_at(
                        from,
                        j,
                    ).key == key,
            forall|key: u64|
                old(table)@.contains_key(key) ==> final(table)@[key] == old(table)@[key],
            forall|j: int|
                0 <= j < snap.nodes[from].outputs.len() ==> final(table)@[#[trigger] snap.output_at(
                    from,
                    j,
                ).key] == final(self)@.output_at(to, j).key,
    {
        let count = self.source(other).get_node(from).outputs.len();
        let mut j: usize = 0;
        while j < count
            invariant
                j <= count,
                count == snap.nodes[from].outputs.len(),
                self.wf(),
                snap.wf(),
                other matches Some(graph) ==> graph.wf() && graph@ == snap,
                other is None ==> self@.keeps(snap) && !snap.nodes.contains_key(to),
                snap.nodes.contains_key(from),
                old(self)@.nodes.contains_key(to),
                old(self)@.outputs.len() + count <= MAX_ITEMS,
                forall|a: int|
                    0 <= a < count ==> !old(table)@.contains_key(
                        #[trigger] snap.output_at(from, a).key,
                    ),
                self@.inputs == old(self)@.inputs,
                self@.connections == old(self)@.connections,
                self@.nodes.dom() == old(self)@.nodes.dom(),
                forall|n: NodeId|
                    old(self)@.nodes.contains_key(n) && n != to
                        ==> self@.nodes[n] == old(self)@.nodes[n],
                self@.nodes[to] == (NodeView {
                    outputs: self@.nodes[to].outputs,
                    ..old(self)@.nodes[to]
                }),
                forall|p: OutputId| #[trigger]
                    old(self)@.outputs.contains_key(p) ==> self@.outputs.contains_key(p)
                        && self@.outputs[p] == old(self)@.outputs[p],
                forall|p: OutputId| #[trigger]
                    self@.outputs.contains_key(p) ==> old(self)@.outputs.contains_key(p)
                        || self@.outputs[p].node == to,
                self@.outputs.len() == old(self)@.outputs.len() + j,
                self@.nodes[to].outputs.len() == j,
                forall|a: int|
                    0 <= a < j ==> {
                        let p = (#[trigger] self@.nodes[to].outputs[a]).1;
                        &&& self@.nodes[to].outputs[a].0 == snap.nodes[from].outputs[a].0
                        &&& !old(self)@.outputs.contains_key(p)
                        &&& output_copied(snap.outputs[snap.output_at(from, a)], self@.outputs[p])
                    },
                forall|key: u64|
                    table@.contains_key(key) <==> old(table)@.contains_key(key) || exists|a: int|
                        0 <= a < j && #[trigger] snap.output_at(from, a).key == key,
                forall|key: u64| old(table)@.contains_key(key) ==> table@[key] == old(table)@[key],
                forall|a: int|
                    0 <= a < j ==> table@[#[trigger] snap.output_at(from, a).key]
                        == self@.output_at(
                        to,
                        a,
                    ).key,
            decreases count - j,
        {
            broadcast use vstd::std_specs::hash::group_hash_axioms;

            let ghost view = self@;
            let ghost noted = table@;
            let src = self.source(other);
            let node = src.get_node(from);
            let name = node.outputs[j].0.clone();
            let copied = node.outputs[j].1;
            proof {
                assert(src@.nodes[from] == snap.nodes[from]);
                assert(snap.nodes[from].outputs[j as int] == (
                    node.outputs[j as int].0@,
                    node.outputs[j as int].1,
                ));
                assert(snap.outputs.contains_key(snap.nodes[from].outputs[j as int].1));
                assert(copied == snap.output_at(from, j as int));
                assert(src@.outputs[copied] == snap.outputs[copied]);
            }
            let typ = src.get_output(copied).typ.clone();
            let id = self.add_output_param(to, name, typ);
            table.insert(copied.key, id.key);
            proof {
                let grown = self@;
                assert(grown.nodes[to].outputs =~= view.nodes[to].outputs.push((name@, id)));
                assert(grown.nodes[to].outputs[j as int] == (name@, id));
                assert forall|a: int| 0 <= a < j + 1 implies {
                    let p = (#[trigger] grown.nodes[to].outputs[a]).1;
                    &&& grown.nodes[to].outputs[a].0 == snap.nodes[from].outputs[a].0
                    &&& !old(self)@.outputs.contains_key(p)
                    &&& output_copied(snap.outputs[snap.output_at(from, a)], grown.outputs[p])
                } by {
                    if a < j {
                        assert(grown.nodes[to].outputs[a] == view.nodes[to].outputs[a]);
                        let p = view.nodes[to].outputs[a].1;
                        assert(view.outputs.contains_key(p));
                    }
                }
                assert forall|a: int| 0 <= a < j + 1 implies table@[#[trigger] snap.output_at(
                    from,
                    a,
                ).key] == grown.output_at(to, a).key by {
                    if a < j {
                        assert(grown.nodes[to].outputs[a] == view.nodes[to].outputs[a]);
                        assert(snap.nodes[from].output_ids()[a]
                            != snap.nodes[from].output_ids()[j as int]);
                        assert(snap.output_at(from, a) != copied);
                    }
                }
                assert forall|key: u64|
                    table@.contains_key(key) <==> old(table)@.contains_key(key) || exists|a: int|
                        0 <= a < j + 1 && #[trigger] snap.output_at(from, a).key == key by {
                    if noted.contains_key(key) && !old(table)@.contains_key(key) {
                        let a = choose|a: int|
                            0 <= a < j && #[trigger] snap.output_at(from, a).key == key;
                        assert(0 <= a < j + 1);
                    }
                    if exists|a: int|
                        0 <= a < j + 1 && #[trigger] snap.output_at(from, a).key == key {
                        let a = choose|a: int|
                            0 <= a < j + 1 && #[trigger] snap.output_at(from, a).key == key;
                        if a < j {
                            assert(noted.contains_key(key));
                        }
                    }
                }
                if other is None {
                    assert(grown.keeps(snap));
                }
            }
            j += 1;
        }
    }
}

impl<NodeData: Clone, DataType: Clone, ValueType: Clone> Graph<NodeData, DataType, ValueType> {
    /// Copies node `from` of the source with its ports, without connecting
    /// the copy, and keeps the books for connecting it later.
    fn copy_node(
        &mut self,
        other: Option<&Self>,
        from: NodeId,
        pairs: &mut Vec<(NodeId, NodeId)>,
        pending: &mut Vec<(InputId, OutputId)>,
        table: &mut HashMap<u64, u64>,
        Ghost(before): Ghost<GraphView<NodeData, DataType, ValueType>>,
        Ghost(snap): Ghost<GraphView<NodeData, DataType, ValueType>>,
    )
        requires
            old(self).wf(),
            snap.wf(),
            before.wf(),
            other matches Some(graph) ==> graph.wf() && graph@ == snap,
            other is None ==> snap == before,
            copying(old(self)@, before, snap, old(pairs)@, old(pending)@, old(table)@),
            snap.nodes.contains_key(from),
            !sources(old(pairs)@).contains(from),
            old(self)@.nodes.len() < MAX_ITEMS,
            old(self)@.inputs.len() + snap.nodes[from].inputs.len() <= MAX_ITEMS,
            old(self)@.outputs.len() + snap.nodes[from].outputs.len() <= MAX_ITEMS,
        ensures
            final(self).wf(),
            copying(final(self)@, before, snap, final(pairs)@, final(pending)@, final(table)@),
            final(pairs)@.len() == old(pairs)@.len() + 1,
            sources(final(pairs)@) == sources(old(pairs)@).push(from),
    {
        let ghost v0 = self@;
        let ghost pairs0 = pairs@;
        let ghost pending0 = pending@;
        let ghost table0 = table@;
        proof {
            assert(source_of(*self, other)@.nodes.contains_key(from));
            assert(source_of(*self, other)@.nodes[from] == snap.nodes[from]);
        }
        let to = self.copy_shell(other, from);
        let ghost v1 = self@;
        proof {
            if other is None {
                assert(v1.keeps(snap));
            }
            assert forall|j: int| 0 <= j < snap.nodes[from].outputs.len() implies
                !table0.contains_key(
                #[trigger] snap.output_at(from, j).key,
            ) by {
                let o = snap.output_at(from, j);
                assert(snap.outputs.contains_key(snap.nodes[from].outputs[j].1));
                assert(snap.outputs[o].node == from);
            }
        }
        self.copy_inputs(other, from, to, pending, Ghost(snap));
        let ghost v2 = self@;
        self.copy_outputs(other, from, to, table, Ghost(snap));
        pairs.push((from, to));
        proof {
            let v3 = self@;
            let pairs1 = pairs@;
            let pending1 = pending@;
            let table1 = table@;
            let last = pairs0.len() as int;
            assert(pairs1 == pairs0.push((from, to)));
            assert(sources(pairs1) =~= sources(pairs0).push(from));
            assert(copies(pairs1) =~= copies(pairs0).push(to));
            assert forall|k: int| 0 <= k < pairs0.len() implies v0.nodes.contains_key(
                (#[trigger] pairs0[k]).1,
            ) by {
                assert(v0.node_copied(snap, pairs0[k].0, pairs0[k].1));
            }
            assert(!copies(pairs0).contains(to)) by {
                if copies(pairs0).contains(to) {
                    let k = choose|k: int| 0 <= k < pairs0.len() && copies(pairs0)[k] == to;
                    assert(v0.nodes.contains_key(pairs0[k].1));
                }
            }
            assert(copies(pairs1).no_duplicates());
            assert(sources(pairs1).no_duplicates());
            // What was there is kept.
            assert(v3.keeps(before)) by {
                assert forall|n: NodeId| #[trigger] before.nodes.contains_key(n) implies
                    v3.nodes.contains_key(
                    n,
                ) && v3.nodes[n] == before.nodes[n] by {
                    assert(v0.nodes.contains_key(n));
                    assert(v1.nodes.contains_key(n));
                }
                assert forall|p: InputId| #[trigger] before.inputs.contains_key(p) implies
                    v3.inputs.contains_key(
                    p,
                ) && v3.inputs[p] == before.inputs[p]
                    && v3.connection(p) == before.connection(p) by {
                    assert(v0.inputs.contains_key(p));
                    assert(v1.inputs.contains_key(p));
                }
                assert forall|p: OutputId| #[trigger] before.outputs.contains_key(p) implies
                    v3.outputs.contains_key(
                    p,
                ) && v3.outputs[p] == before.outputs[p] by {
                    assert(v0.outputs.contains_key(p));
                    assert(v2.outputs.contains_key(p));
                }
            }
            assert(v3.adds_only(before, copies(pairs1))) by {
                assert forall|n: NodeId| #[trigger] v3.nodes.contains_key(n) implies
                    before.nodes.contains_key(
                    n,
                ) || copies(pairs1).contains(n) by {
                    if n == to {
                        assert(copies(pairs1)[last] == to);
                    } else {
                        assert(v0.nodes.contains_key(n));
                        if copies(pairs0).contains(n) {
                            let k = choose|k: int| 0 <= k < pairs0.len() && copies(pairs0)[k] == n;
                            assert(copies(pairs1)[k] == n);
                        }
                    }
                }
                assert forall|p: InputId| #[trigger] v3.inputs.contains_key(p) implies
                    before.inputs.contains_key(
                    p,
                ) || copies(pairs1).contains(v3.inputs[p].node) by {
                    assert(v2.inputs.contains_key(p));
                    if v1.inputs.contains_key(p) {
                        assert(v0.inputs.contains_key(p));
                        let n = v0.inputs[p].node;
                        if copies(pairs0).contains(n) {
                            let k = choose|k: int| 0 <= k < pairs0.len() && copies(pairs0)[k] == n;
                            assert(copies(pairs1)[k] == n);
                        }
                    } else {
                        assert(copies(pairs1)[last] == to);
                    }
                }
                assert forall|p: OutputId| #[trigger] v3.outputs.contains_key(p) implies
                    before.outputs.contains_key(
                    p,
                ) || copies(pairs1).contains(v3.outputs[p].node) by {
                    if v2.outputs.contains_key(p) {
                        assert(v0.outputs.contains_key(p));
                        let n = v0.outputs[p].node;
                        if copies(pairs0).contains(n) {
                            let k = choose|k: int| 0 <= k < pairs0.len() && copies(pairs0)[k] == n;
                            assert(copies(pairs1)[k] == n);
                        }
                    } else {
                        assert(copies(pairs1)[last] == to);
                    }
                }
            }
            // Each pair is a node and its copy.
            assert forall|k: int| 0 <= k < pairs1.len() implies v3.node_copied(
                snap,
                (#[trigger] pairs1[k]).0,
                pairs1[k].1,
            ) by {
                if k < last {
                    let a = pairs0[k].0;
                    let b = pairs0[k].1;
                    assert(pairs1[k] == pairs0[k]);
                    assert(v0.node_copied(snap, a, b));
                    assert(v3.nodes[b] == v0.nodes[b]);
                    assert forall|j: int| 0 <= j < snap.nodes[a].inputs.len() implies
                        (#[trigger] v3.nodes[b].inputs[j]).0
                        == snap.nodes[a].inputs[j].0 && input_copied(
                        snap.inputs[snap.nodes[a].inputs[j].1],
                        v3.inputs[v3.nodes[b].inputs[j].1],
                    ) by {
                        let p = v0.nodes[b].inputs[j].1;
                        assert(v0.inputs.contains_key(p));
                        assert(v1.inputs.contains_key(p));
                    }
                    assert forall|j: int| 0 <= j < snap.nodes[a].outputs.len() implies
                        (#[trigger] v3.nodes[b].outputs[j]).0
                        == snap.nodes[a].outputs[j].0 && output_copied(
                        snap.outputs[snap.nodes[a].outputs[j].1],
                        v3.outputs[v3.nodes[b].outputs[j].1],
                    ) by {
                        let p = v0.nodes[b].outputs[j].1;
                        assert(v0.outputs.contains_key(p));
                        assert(v2.outputs.contains_key(p));
                    }
                } else {
                    assert(pairs1[k] == (from, to));
                    assert(v3.nodes[to].inputs == v2.nodes[to].inputs);
                    assert forall|j: int| 0 <= j < snap.nodes[from].inputs.len() implies
                        (#[trigger] v3.nodes[to].inputs[j]).0
                        == snap.nodes[from].inputs[j].0 && input_copied(
                        snap.inputs[snap.nodes[from].inputs[j].1],
                        v3.inputs[v3.nodes[to].inputs[j].1],
                    ) by {
                        let p = v2.nodes[to].inputs[j].1;
                        assert(input_copied(snap.inputs[snap.input_at(from, j)], v2.inputs[p]));
                    }
                }
            }
            // The connections that are owed.
            assert forall|e: (InputId, OutputId)|
                pending1.contains(e) <==> exists|k: int|
                    0 <= k < pairs1.len() && owed_link(
                        snap,
                        v3,
                        (#[trigger] pairs1[k]).0,
                        pairs1[k].1,
                        snap.nodes[pairs1[k].0].inputs.len() as int,
                        e,
                    ) by {
                assert forall|k: int| 0 <= k < pairs0.len() implies owed_link(
                    snap,
                    v3,
                    (#[trigger] pairs0[k]).0,
                    pairs0[k].1,
                    snap.nodes[pairs0[k].0].inputs.len() as int,
                    e,
                ) == owed_link(
                    snap,
                    v0,
                    pairs0[k].0,
                    pairs0[k].1,
                    snap.nodes[pairs0[k].0].inputs.len() as int,
                    e,
                ) by {
                    let upto = snap.nodes[pairs0[k].0].inputs.len() as int;
                    assert(v3.nodes[pairs0[k].1] == v0.nodes[pairs0[k].1]);
                    assert forall|j: int| v3.input_at(pairs0[k].1, j)
                        == v0.input_at(pairs0[k].1, j) by {}
                    if owed_link(snap, v3, pairs0[k].0, pairs0[k].1, upto, e) {
                        let j = choose|j: int|
                            0 <= j < upto && e.0 == #[trigger] v3.input_at(pairs0[k].1, j)
                                && snap.connection(snap.input_at(pairs0[k].0, j)) == Some(e.1);
                        assert(e.0 == v0.input_at(pairs0[k].1, j));
                    }
                    if owed_link(snap, v0, pairs0[k].0, pairs0[k].1, upto, e) {
                        let j = choose|j: int|
                            0 <= j < upto && e.0 == #[trigger] v0.input_at(pairs0[k].1, j)
                                && snap.connection(snap.input_at(pairs0[k].0, j)) == Some(e.1);
                        assert(e.0 == v3.input_at(pairs0[k].1, j));
                    }
                }
                let width = snap.nodes[from].inputs.len() as int;
                assert(owed_link(snap, v3, from, to, width, e) == owed_link(
                    snap,
                    v2,
                    from,
                    to,
                    width,
                    e,
                )) by {
                    assert forall|j: int| v3.input_at(to, j) == v2.input_at(to, j) by {}
                    if owed_link(snap, v3, from, to, width, e) {
                        let j = choose|j: int|
                            0 <= j < width && e.0 == #[trigger] v3.input_at(to, j)
                                && snap.connection(snap.input_at(from, j)) == Some(e.1);
                        assert(e.0 == v2.input_at(to, j));
                    }
                    if owed_link(snap, v2, from, to, width, e) {
                        let j = choose|j: int|
                            0 <= j < width && e.0 == #[trigger] v2.input_at(to, j)
                                && snap.connection(snap.input_at(from, j)) == Some(e.1);
                        assert(e.0 == v3.input_at(to, j));
                    }
                }
                if pending0.contains(e) {
                    let k = choose|k: int|
                        0 <= k < pairs0.len() && owed_link(
                            snap,
                            v0,
                            (#[trigger] pairs0[k]).0,
                            pairs0[k].1,
                            snap.nodes[pairs0[k].0].inputs.len() as int,
                            e,
                        );
                    assert(pairs1[k] == pairs0[k]);
                }
                if owed_link(snap, v2, from, to, width, e) {
                    assert(pairs1[last] == (from, to));
                }
                if exists|k: int|
                    0 <= k < pairs1.len() && owed_link(
                        snap,
                        v3,
                        (#[trigger] pairs1[k]).0,
                        pairs1[k].1,
                        snap.nodes[pairs1[k].0].inputs.len() as int,
                        e,
                    ) {
                    let k = choose|k: int|
                        0 <= k < pairs1.len() && owed_link(
                            snap,
                            v3,
                            (#[trigger] pairs1[k]).0,
                            pairs1[k].1,
                            snap.nodes[pairs1[k].0].inputs.len() as int,
                            e,
                        );
                    if k < last {
                        assert(pairs1[k] == pairs0[k]);
                    }
                }
            }
            // The images of the outputs.
            assert forall|o: OutputId| snap.outputs.contains_key(o) implies
                (#[trigger] table1.contains_key(
                o.key,
            ) <==> sources(pairs1).contains(snap.outputs[o].node)) by {
                let owner = snap.outputs[o].node;
                if sources(pairs0).contains(owner) {
                    let k = choose|k: int| 0 <= k < pairs0.len() && sources(pairs0)[k] == owner;
                    assert(sources(pairs1)[k] == owner);
                }
                if owner == from {
                    assert(sources(pairs1)[last] == from);
                    let j = choose|j: int|
                        0 <= j < snap.nodes[from].output_ids().len()
                            && snap.nodes[from].output_ids()[j]
                            == o;
                    assert(snap.output_at(from, j).key == o.key);
                }
                if table1.contains_key(o.key) && !table0.contains_key(o.key) {
                    let j = choose|j: int|
                        0 <= j < snap.nodes[from].outputs.len() && #[trigger] snap.output_at(
                            from,
                            j,
                        ).key == o.key;
                    assert(snap.outputs.contains_key(snap.nodes[from].outputs[j].1));
                    assert(snap.output_at(from, j) == o);
                }
                if sources(pairs1).contains(owner) {
                    let k = choose|k: int| 0 <= k < pairs1.len() && sources(pairs1)[k] == owner;
                    if k < last {
                        assert(sources(pairs0)[k] == owner);
                    }
                }
            }
            assert forall|o: OutputId|
                snap.outputs.contains_key(o) && #[trigger] table1.contains_key(
                    o.key,
                ) implies v3.output_image(snap, pairs1, o)
                    == Some(OutputId { key: table1[o.key] }) by {
                let owner = snap.outputs[o].node;
                let j = choose|j: int|
                    0 <= j < snap.nodes[owner].output_ids().len()
                        && snap.nodes[owner].output_ids()[j]
                        == o;
                assert(snap.output_at(owner, j) == o);
                if owner == from {
                    lemma_output_image(v3, snap, pairs1, last, j);
                } else {
                    assert(table0.contains_key(o.key)) by {
                        if !table0.contains_key(o.key) {
                            let j2 = choose|j2: int|
                                0 <= j2 < snap.nodes[from].outputs.len()
                                    && #[trigger] snap.output_at(
                                    from,
                                    j2,
                                ).key == o.key;
                            assert(snap.outputs.contains_key(snap.nodes[from].outputs[j2].1));
                            assert(snap.output_at(from, j2) == o);
                        }
                    }
                    let k = choose|k: int| 0 <= k < pairs0.len() && sources(pairs0)[k] == owner;
                    lemma_output_image(v0, snap, pairs0, k, j);
                    lemma_output_image(v3, snap, pairs1, k, j);
                    assert(v0.node_copied(snap, pairs0[k].0, pairs0[k].1));
                    assert(v3.nodes[pairs0[k].1] == v0.nodes[pairs0[k].1]);
                }
            }
            assert(snap.input_total(sources(pairs1)) == snap.input_total(sources(pairs0))
                + snap.nodes[from].inputs.len()) by {
                assert(sources(pairs1).drop_last() =~= sources(pairs0));
            }
            assert(snap.output_total(sources(pairs1)) == snap.output_total(sources(pairs0))
                + snap.nodes[from].outputs.len()) by {
                assert(sources(pairs1).drop_last() =~= sources(pairs0));
            }
        }
    }
}

impl<NodeData: Clone, DataType: Clone, ValueType: Clone> Graph<NodeData, DataType, ValueType> {
    /// Connects the copies: each owed connection is made where the output
    /// that drove the copied has an image, and dropped where it has none.
    fn connect_copies(
        &mut self,
        pending: &Vec<(InputId, OutputId)>,
        table: &HashMap<u64, u64>,
        Ghost(before): Ghost<GraphView<NodeData, DataType, ValueType>>,
        Ghost(snap): Ghost<GraphView<NodeData, DataType, ValueType>>,
        Ghost(pairs): Ghost<Seq<(NodeId, NodeId)>>,
    )
        requires
            old(self).wf(),
            snap.wf(),
            before.wf(),
            copying(old(self)@, before, snap, pairs, pending@, table@),
        ensures
            final(self).wf(),
            final(self)@.is_copy(before, snap, pairs),
    {
        broadcast use vstd::std_specs::hash::group_hash_axioms;

        let ghost mid = self@;
        proof {
            assert forall|k: int, j: int|
                0 <= k < pairs.len() && 0 <= j < snap.nodes[pairs[k].0].inputs.len() implies {
                let to = #[trigger] mid.input_at(pairs[k].1, j);
                mid.connection(to) == wanted(mid, snap, pairs, k, j) || (mid.connection(to) is None
                    && exists|s: int| 0 <= s < pending.len() && (#[trigger] pending[s]).0 == to)
            } by {
                let to = mid.input_at(pairs[k].1, j);
                assert(mid.node_copied(snap, pairs[k].0, pairs[k].1));
                assert(!before.inputs.contains_key(to)) by {
                    assert(mid.inputs.contains_key(mid.nodes[pairs[k].1].inputs[j].1));
                    assert(mid.inputs[to].node == pairs[k].1);
                    if before.inputs.contains_key(to) {
                        assert(before.nodes.contains_key(before.inputs[to].node));
                    }
                }
                assert(!before.connections.contains_key(to));
                if snap.connection(snap.input_at(pairs[k].0, j)) is Some {
                    let o = snap.connection(snap.input_at(pairs[k].0, j))->Some_0;
                    let e = (to, o);
                    assert(owed_link(
                        snap,
                        mid,
                        pairs[k].0,
                        pairs[k].1,
                        snap.nodes[pairs[k].0].inputs.len() as int,
                        e,
                    ));
                    assert(pending@.contains(e));
                    let s = choose|s: int| 0 <= s < pending.len() && pending[s] == e;
                    assert(pending[s].0 == to);
                }
            }
        }
        let mut t: usize = 0;
        while t < pending.len()
            invariant
                t <= pending.len(),
                self.wf(),
                snap.wf(),
                before.wf(),
                mid.wf(),
                copying(mid, before, snap, pairs, pending@, table@),
                self@.nodes == mid.nodes,
                self@.inputs == mid.inputs,
                self@.outputs == mid.outputs,
                forall|p: InputId| #[trigger]
                    before.inputs.contains_key(p) ==> self@.connection(p) == before.connection(p),
                forall|k: int, j: int|
                    0 <= k < pairs.len() && 0 <= j < snap.nodes[pairs[k].0].inputs.len() ==> {
                        let to = #[trigger] mid.input_at(pairs[k].1, j);
                        self@.connection(to) == wanted(mid, snap, pairs, k, j) || (self@.connection(
                            to,
                        ) is None && exists|s: int|
                            t <= s < pending.len() && (#[trigger] pending[s]).0 == to)
                    },
            decreases pending.len() - t,
        {
            let link = pending[t];
            let ghost view = self@;
            let ghost k0 = choose|k: int|
                0 <= k < pairs.len() && owed_link(
                    snap,
                    mid,
                    (#[trigger] pairs[k]).0,
                    pairs[k].1,
                    snap.nodes[pairs[k].0].inputs.len() as int,
                    link,
                );
            let ghost j0 = choose|j: int|
                0 <= j < snap.nodes[pairs[k0].0].inputs.len() && link.0 == #[trigger] mid.input_at(
                    pairs[k0].1,
                    j,
                ) && snap.connection(snap.input_at(pairs[k0].0, j)) == Some(link.1);
            proof {
                assert(pending@.contains(link));
                assert(owed_link(
                    snap,
                    mid,
                    pairs[k0].0,
                    pairs[k0].1,
                    snap.nodes[pairs[k0].0].inputs.len() as int,
                    link,
                ));
                assert(mid.node_copied(snap, pairs[k0].0, pairs[k0].1));
                assert(mid.inputs.contains_key(mid.nodes[pairs[k0].1].inputs[j0].1));
                assert(snap.inputs.contains_key(snap.nodes[pairs[k0].0].inputs[j0].1));
                assert(snap.connections.contains_key(snap.input_at(pairs[k0].0, j0)));
                assert(snap.outputs.contains_key(link.1));
                assert(mid.inputs[link.0].node == pairs[k0].1);
                assert(!before.inputs.contains_key(link.0)) by {
                    if before.inputs.contains_key(link.0) {
                        assert(before.nodes.contains_key(before.inputs[link.0].node));
                    }
                }
            }
            match table.get(&link.1.key) {
                Some(key) => {
                    let image = OutputId { key: *key };
                    proof {
                        assert(table@.contains_key(link.1.key));
                        assert(mid.output_image(snap, pairs, link.1) == Some(image));
                        let owner = snap.outputs[link.1].node;
                        let k2 = sources(pairs).index_of(owner);
                        let j2 = snap.nodes[owner].output_ids().index_of(link.1);
                        assert(sources(pairs).contains(owner));
                        assert(sources(pairs)[k2] == owner);
                        assert(snap.nodes[owner].output_ids().contains(link.1));
                        assert(mid.node_copied(snap, pairs[k2].0, pairs[k2].1));
                        assert(mid.outputs.contains_key(mid.nodes[pairs[k2].1].outputs[j2].1));
                    }
                    self.add_connection(image, link.0);
                },
                None => {
                    proof {
                        assert(!table@.contains_key(link.1.key));
                        assert(wanted(mid, snap, pairs, k0, j0) is None);
                    }
                },
            }
            proof {
                assert(self@.connection(link.0) == wanted(mid, snap, pairs, k0, j0));
                assert forall|k: int, j: int|
                    0 <= k < pairs.len() && 0 <= j < snap.nodes[pairs[k].0].inputs.len() implies {
                    let to = #[trigger] mid.input_at(pairs[k].1, j);
                    self@.connection(to) == wanted(mid, snap, pairs, k, j) || (self@.connection(
                        to,
                    ) is None && exists|s: int|
                        t + 1 <= s < pending.len() && (#[trigger] pending[s]).0 == to)
                } by {
                    let to = mid.input_at(pairs[k].1, j);
                    assert(mid.node_copied(snap, pairs[k].0, pairs[k].1));
                    if to == link.0 {
                        lemma_copied_inputs_differ(mid, pairs, k, j, k0, j0);
                    } else {
                        assert(self@.connection(to) == view.connection(to));
                        if view.connection(to) != wanted(mid, snap, pairs, k, j) {
                            let s = choose|s: int|
                                t <= s < pending.len() && (#[trigger] pending[s]).0 == to;
                            assert(s != t);
                        }
                    }
                }
            }
            t += 1;
        }
        proof {
            let done = self@;
            assert(done.keeps(before));
            assert(done.adds_only(before, copies(pairs)));
            assert forall|k: int| 0 <= k < pairs.len() implies done.node_copied(
                snap,
                (#[trigger] pairs[k]).0,
                pairs[k].1,
            ) by {
                assert(mid.node_copied(snap, pairs[k].0, pairs[k].1));
            }
            assert forall|k: int, j: int|
                0 <= k < pairs.len() && 0 <= j < snap.nodes[pairs[k].0].inputs.len() implies {
                let to = #[trigger] done.input_at(pairs[k].1, j);
                done.connection(to) == match snap.connection(snap.input_at(pairs[k].0, j)) {
                    Some(o) => done.output_image(snap, pairs, o),
                    None => None,
                }
            } by {
                let to = mid.input_at(pairs[k].1, j);
                assert(done.connection(to) == wanted(mid, snap, pairs, k, j));
            }
        }
    }

    /// Copies the listed nodes of the source into this graph: the nodes
    /// with their ports first, then the connections between the copies.
    fn copy_nodes(&mut self, other: Option<&Self>, ids: &Vec<NodeId>) -> (pairs: Vec<
        (NodeId, NodeId),
    >)
        requires
            old(self).wf(),
            other matches Some(graph) ==> graph.wf(),
            ids@.no_duplicates(),
            forall|k: int|
                0 <= k < ids.len() ==> source_of(*old(self), other)@.nodes.contains_key(
                    #[trigger] ids[k],
                ),
            old(self)@.nodes.len() + ids.len() <= MAX_ITEMS,
            old(self)@.inputs.len() + source_of(*old(self), other)@.input_total(ids@) <= MAX_ITEMS,
            old(self)@.outputs.len() + source_of(*old(self), other)@.output_total(ids@)
                <= MAX_ITEMS,
        ensures
            final(self).wf(),
            final(self)@.is_copy(old(self)@, source_of(*old(self), other)@, pairs@),
            sources(pairs@) == ids@,
    {
        let ghost before = self@;
        let ghost snap = source_of(*self, other)@;
        let mut pairs: Vec<(NodeId, NodeId)> = Vec::new();
        let mut pending: Vec<(InputId, OutputId)> = Vec::new();
        let mut table: HashMap<u64, u64> = HashMap::new();
        proof {
            assert(sources(pairs@) =~= ids@.take(0));
            assert(before.adds_only(before, copies(pairs@)));
            assert(before.keeps(before));
            assert(copying(before, before, snap, pairs@, pending@, table@));
        }
        let mut k: usize = 0;
        while k < ids.len()
            invariant
                k <= ids.len(),
                self.wf(),
                snap.wf(),
                before.wf(),
                other matches Some(graph) ==> graph.wf() && graph@ == snap,
                other is None ==> snap == before,
                ids@.no_duplicates(),
                forall|a: int| 0 <= a < ids.len() ==> snap.nodes.contains_key(#[trigger] ids[a]),
                before.nodes.len() + ids.len() <= MAX_ITEMS,
                before.inputs.len() + snap.input_total(ids@) <= MAX_ITEMS,
                before.outputs.len() + snap.output_total(ids@) <= MAX_ITEMS,
                copying(self@, before, snap, pairs@, pending@, table@),
                pairs.len() == k,
                sources(pairs@) == ids@.take(k as int),
            decreases ids.len() - k,
        {
            let from = ids[k];
            proof {
                assert(!sources(pairs@).contains(from)) by {
                    if sources(pairs@).contains(from) {
                        let a = choose|a: int| 0 <= a < k && ids@.take(k as int)[a] == from;
                        assert(ids[a] == ids[k as int]);
                    }
                }
                assert(ids@.take(k + 1).drop_last() =~= ids@.take(k as int));
                snap.lemma_totals_grow(ids@, k + 1);
            }
            self.copy_node(
                other,
                from,
                &mut pairs,
                &mut pending,
                &mut table,
                Ghost(before),
                Ghost(snap),
            );
            proof {
                assert(ids@.take(k + 1) =~= ids@.take(k as int).push(from));
            }
            k += 1;
        }
        self.connect_copies(&pending, &table, Ghost(before), Ghost(snap), Ghost(pairs@));
        proof {
            assert(ids@.take(ids.len() as int) =~= ids@);
        }
        pairs
    }
}

} // verus!

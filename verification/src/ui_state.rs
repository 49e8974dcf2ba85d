//! The state of the editor around the graph: drawing order, selection, the
//! drag in progress, and where each node stands.
//!
//! Positions are values of a type that the library does not look into: it
//! keeps one for each node, and the host computes with them.

use crate::arena::slot_index;
use crate::graph::GraphView;
use crate::graph::lemma_filter_keeps_all;
use crate::graph::lemma_filter_removes_one;
use crate::graph_impls::Graph;
use crate::id_type::AnyParameterId;
use crate::id_type::InputId;
use crate::id_type::NodeId;
use crate::id_type::OutputId;
use std::collections::HashMap;
use vstd::prelude::*;

verus! {

broadcast use vstd::std_specs::hash::group_hash_axioms;

/// The palette from which a new node is created, while it is open.
#[derive(Clone, Copy, Debug)]
pub struct NodeFinder<Pos> {
    /// Where the palette is anchored, if it is.
    pub position: Option<Pos>,
}

impl<Pos> NodeFinder<Pos> {
    /// A palette anchored at the position.
    pub fn new_at(pos: Pos) -> (finder: Self)
        ensures
            finder.position == Some(pos),
    {
        NodeFinder { position: Some(pos) }
    }
}

/// The state of one editor.
#[derive(Clone)]
pub struct GraphEditorState<NodeData, DataType, ValueType, Pos> {
    pub graph: Graph<NodeData, DataType, ValueType>,
    /// The nodes in drawing order: the last is drawn on top.
    pub node_order: Vec<NodeId>,
    /// The drag that is under way from a port, with the port's node.
    pub connection_in_progress: Option<(NodeId, AnyParameterId)>,
    /// The selected nodes, each once, in the order in which they were
    /// selected.
    pub selected_nodes: Vec<NodeId>,
    /// Where the box selection that is under way began.
    pub ongoing_box_selection: Option<Pos>,
    /// The position of each node, under the node's key.
    pub node_positions: HashMap<u64, Pos>,
    /// The palette for new nodes, while it is open.
    pub node_finder: Option<NodeFinder<Pos>>,
}

/// The editor's state as the contracts see it.
pub struct EditorView<NodeData, DataType, ValueType, Pos> {
    pub graph: GraphView<NodeData, DataType, ValueType>,
    pub node_order: Seq<NodeId>,
    pub connection_in_progress: Option<(NodeId, AnyParameterId)>,
    pub selected_nodes: Seq<NodeId>,
    pub ongoing_box_selection: Option<Pos>,
    pub node_positions: Map<NodeId, Pos>,
    pub node_finder: Option<NodeFinder<Pos>>,
}

/// A store of positions by the nodes that have one.
pub open spec fn positions_by_node<Pos>(positions: Map<u64, Pos>) -> Map<NodeId, Pos> {
    Map::new(|id: NodeId| positions.contains_key(id.key), |id: NodeId| positions[id.key])
}

/// The test that every node but the given one passes.
pub open spec fn not_node(id: NodeId) -> spec_fn(NodeId) -> bool {
    |n: NodeId| n != id
}

impl<NodeData, DataType, ValueType, Pos> View for GraphEditorState<
    NodeData,
    DataType,
    ValueType,
    Pos,
> {
    type V = EditorView<NodeData, DataType, ValueType, Pos>;

    open spec fn view(&self) -> EditorView<NodeData, DataType, ValueType, Pos> {
        EditorView {
            graph: self.graph@,
            node_order: self.node_order@,
            connection_in_progress: self.connection_in_progress,
            selected_nodes: self.selected_nodes@,
            ongoing_box_selection: self.ongoing_box_selection,
            node_positions: positions_by_node(self.node_positions@),
            node_finder: self.node_finder,
        }
    }
}

impl<NodeData, DataType, ValueType, Pos> EditorView<NodeData, DataType, ValueType, Pos> {
    /// The drawing order lists exactly the nodes of the graph, each once;
    /// every selected node is a node of the graph and is listed once; exactly
    /// the nodes of the graph have a position.
    pub open spec fn wf(self) -> bool {
        &&& self.graph.wf()
        &&& self.node_order.no_duplicates()
        &&& self.node_order.to_set() == self.graph.nodes.dom()
        &&& self.selected_nodes.no_duplicates()
        &&& forall|k: int|
            0 <= k < self.selected_nodes.len() ==> self.graph.nodes.contains_key(
                #[trigger] self.selected_nodes[k],
            )
        &&& self.node_positions.dom() == self.graph.nodes.dom()
    }

    /// The selection after `node` was selected, alone or in addition.
    pub open spec fn selection_with(self, node: NodeId, additive: bool) -> Seq<NodeId> {
        if !additive {
            seq![node]
        } else if self.selected_nodes.contains(node) {
            self.selected_nodes
        } else {
            self.selected_nodes.push(node)
        }
    }

    /// The selection after a box selection hit the listed nodes.
    pub open spec fn selection_with_hits(self, hits: Seq<NodeId>, additive: bool) -> Seq<NodeId> {
        hits_added(
            if additive {
                self.selected_nodes
            } else {
                Seq::empty()
            },
            hits,
            self.graph.nodes.dom(),
        )
    }

    /// The drawing order with `node` moved to the end, on top.
    pub open spec fn order_with_raised(self, node: NodeId) -> Seq<NodeId> {
        self.node_order.filter(not_node(node)).push(node)
    }
}

/// Taking a node out of a list without repetition leaves a list without
/// repetition of the other nodes.
pub proof fn lemma_without_node(list: Seq<NodeId>, id: NodeId)
    requires
        list.no_duplicates(),
    ensures
        list.filter(not_node(id)).no_duplicates(),
        list.filter(not_node(id)).to_set() == list.to_set().remove(id),
        list.contains(id) ==> list.filter(not_node(id)) == list.remove(list.index_of(id)),
        !list.contains(id) ==> list.filter(not_node(id)) == list,
{
    if list.contains(id) {
        let at = list.index_of(id);
        assert forall|j: int| 0 <= j < list.len() && j != at implies not_node(id)(list[j]) by {
            assert(list[j] != list[at]);
        }
        lemma_filter_removes_one(list, not_node(id), at);
        let rest = list.remove(at);
        assert forall|a: int, b: int| 0 <= a < rest.len() && 0 <= b < rest.len() && a != b implies
            rest[a]
            != rest[b] by {
            let sa = if a < at { a } else { a + 1 };
            let sb = if b < at { b } else { b + 1 };
            assert(rest[a] == list[sa]);
            assert(rest[b] == list[sb]);
        }
        assert forall|n: NodeId| rest.to_set().contains(n) == list.to_set().remove(id).contains(
            n,
        ) by {
            if rest.to_set().contains(n) {
                let a = choose|a: int| 0 <= a < rest.len() && rest[a] == n;
                let sa = if a < at { a } else { a + 1 };
                assert(list[sa] == n);
                assert(list[sa] != list[at]);
            }
            if list.to_set().remove(id).contains(n) {
                let s = choose|s: int| 0 <= s < list.len() && list[s] == n;
                let a = if s < at { s } else { s - 1 };
                assert(rest[a] == n);
            }
        }
        assert(rest.to_set() =~= list.to_set().remove(id));
    } else {
        assert forall|j: int| 0 <= j < list.len() implies not_node(id)(list[j]) by {
            assert(list.contains(list[j]));
        }
        lemma_filter_keeps_all(list, not_node(id));
        assert(list.to_set() =~= list.to_set().remove(id));
    }
}

/// The selection with the hits added one after the other: each hit that is
/// a node and is not in the selection yet goes to its end.
pub open spec fn hits_added(selection: Seq<NodeId>, hits: Seq<NodeId>, nodes: Set<NodeId>) -> Seq<
    NodeId,
>
    decreases hits.len(),
{
    if hits.len() == 0 {
        selection
    } else {
        let sofar = hits_added(selection, hits.drop_last(), nodes);
        if nodes.contains(hits.last()) && !sofar.contains(hits.last()) {
            sofar.push(hits.last())
        } else {
            sofar
        }
    }
}

/// With hits added, a selection holds what it held and every hit that is a
/// node.
pub proof fn lemma_hits_added(selection: Seq<NodeId>, hits: Seq<NodeId>, nodes: Set<NodeId>)
    ensures
        forall|n: NodeId|
            hits_added(selection, hits, nodes).contains(n) <==> selection.contains(n) || (
            hits.contains(n) && nodes.contains(n)),
    decreases hits.len(),
{
    if hits.len() > 0 {
        let front = hits.drop_last();
        let last = hits.last();
        let sofar = hits_added(selection, front, nodes);
        let all = hits_added(selection, hits, nodes);
        lemma_hits_added(selection, front, nodes);
        assert forall|n: NodeId|
            all.contains(n) <==> selection.contains(n) || (hits.contains(n) && nodes.contains(
                n,
            )) by {
            if front.contains(n) {
                let a = choose|a: int| 0 <= a < front.len() && front[a] == n;
                assert(hits[a] == n);
            }
            if n == last {
                assert(hits[hits.len() - 1] == n);
            }
            if hits.contains(n) && n != last {
                let a = choose|a: int| 0 <= a < hits.len() && hits[a] == n;
                assert(front[a] == n);
            }
            if all != sofar {
                assert(all == sofar.push(last));
                assert(all[sofar.len() as int] == last);
                if sofar.contains(n) {
                    let a = choose|a: int| 0 <= a < sofar.len() && sofar[a] == n;
                    assert(all[a] == n);
                }
                if all.contains(n) && n != last {
                    let a = choose|a: int| 0 <= a < all.len() && all[a] == n;
                    assert(sofar[a] == n);
                }
            }
        }
    }
}

/// Whether the list holds the node, and where.
pub fn position_of(list: &Vec<NodeId>, id: NodeId) -> (at: Option<usize>)
    ensures
        match at {
            Some(j) => j < list.len() && list[j as int] == id && forall|a: int|
                0 <= a < j ==> list[a] != id,
            None => !list@.contains(id),
        },
{
    let mut j: usize = 0;
    while j < list.len()
        invariant
            j <= list.len(),
            forall|a: int| 0 <= a < j ==> list[a] != id,
        decreases list.len() - j,
    {
        if list[j] == id {
            return Some(j);
        }
        j += 1;
    }
    None
}

/// Whether the list holds no node twice.
pub fn has_no_repeats(list: &Vec<NodeId>) -> (ok: bool)
    ensures
        ok == list@.no_duplicates(),
{
    let mut k: usize = 0;
    while k < list.len()
        invariant
            k <= list.len(),
            forall|a: int, b: int| 0 <= a < b < k ==> list[a] != list[b],
        decreases list.len() - k,
    {
        match position_of(list, list[k]) {
            Some(first) => {
                if first < k {
                    proof {
                        assert(list@[first as int] == list@[k as int]);
                    }
                    return false;
                }
            },
            None => {
                proof {
                    assert(list@.contains(list@[k as int]));
                }
            },
        }
        k += 1;
    }
    proof {
        assert forall|a: int, b: int|
            0 <= a < list.len() && 0 <= b < list.len() && a != b implies list@[a] != list@[b] by {
            if a < b {
                assert(list[a] != list[b]);
            } else {
                assert(list[b] != list[a]);
            }
        }
    }
    true
}

/// Takes the node out of a list that holds no node twice.
pub fn remove_node_id(list: &mut Vec<NodeId>, id: NodeId)
    requires
        old(list)@.no_duplicates(),
    ensures
        final(list)@ == old(list)@.filter(not_node(id)),
{
    proof {
        lemma_without_node(list@, id);
    }
    match position_of(list, id) {
        Some(at) => {
            proof {
                let chosen = list@.index_of(id);
                assert(list@.contains(id));
                assert(list@[chosen] == list@[at as int]);
            }
            list.remove(at);
        },
        None => {},
    }
}

impl<NodeData, DataType, ValueType, Pos> GraphEditorState<NodeData, DataType, ValueType, Pos> {
    /// A state that every operation keeps well-formed.
    pub open spec fn wf(&self) -> bool {
        self.graph.wf() && self@.wf()
    }

    /// An editor with an empty graph.
    pub fn new() -> (state: Self)
        ensures
            state.wf(),
            state@.graph.nodes.dom() == Set::<NodeId>::empty(),
            state@.graph.inputs.dom() == Set::<InputId>::empty(),
            state@.graph.outputs.dom() == Set::<OutputId>::empty(),
            state@.graph.connections.dom() == Set::<InputId>::empty(),
            state@.node_positions.dom() == Set::<NodeId>::empty(),
            state@.node_order == Seq::<NodeId>::empty(),
            state@.selected_nodes == Seq::<NodeId>::empty(),
            state@.connection_in_progress is None,
            state@.ongoing_box_selection is None,
            state@.node_finder is None,
    {
        let state = GraphEditorState {
            graph: Graph::new(),
            node_order: Vec::new(),
            connection_in_progress: None,
            selected_nodes: Vec::new(),
            ongoing_box_selection: None,
            node_positions: HashMap::new(),
            node_finder: None,
        };
        proof {
            assert(state@.node_positions.dom() =~= state@.graph.nodes.dom());
            assert(state@.node_order.to_set() =~= state@.graph.nodes.dom());
        }
        state
    }

    /// Whether every node of the list is a node of the graph.
    fn all_in_graph(&self, list: &Vec<NodeId>) -> (ok: bool)
        ensures
            ok == forall|k: int|
                0 <= k < list.len() ==> self@.graph.nodes.contains_key(#[trigger] list[k]),
    {
        let mut k: usize = 0;
        while k < list.len()
            invariant
                k <= list.len(),
                forall|a: int| 0 <= a < k ==> self@.graph.nodes.contains_key(#[trigger] list[a]),
            decreases list.len() - k,
        {
            if self.graph.try_get_node(list[k]).is_none() {
                return false;
            }
            k += 1;
        }
        true
    }

    /// Whether the state is well-formed around its graph: the drawing order
    /// lists exactly the nodes of the graph, each once, the selection holds
    /// nodes of the graph, each once, and exactly the nodes of the graph have
    /// a position.
    pub fn is_consistent(&self) -> (ok: bool)
        requires
            self.graph.wf(),
        ensures
            ok == self.wf(),
    {
        let ids = self.graph.iter_nodes();
        let ghost nodes = self@.graph.nodes.dom();
        proof {
            assert(ids@.no_duplicates()) by {
                assert forall|a: int, b: int|
                    0 <= a < ids.len() && 0 <= b < ids.len() && a != b implies ids[a] != ids[b] by {
                    if a < b {
                        assert(slot_index(ids[a].key) < slot_index(ids[b].key));
                    } else {
                        assert(slot_index(ids[b].key) < slot_index(ids[a].key));
                    }
                }
            }
            ids@.unique_seq_to_set();
            vstd::seq_lib::seq_to_set_is_finite(self.node_order@);
            if self.node_order@.no_duplicates() {
                self.node_order@.unique_seq_to_set();
            }
        }
        let order_ok = self.node_order.len() == ids.len() && has_no_repeats(&self.node_order)
            && self.all_in_graph(&self.node_order);
        proof {
            if order_ok {
                assert(self.node_order@.to_set().subset_of(nodes)) by {
                    assert forall|n: NodeId|
                        self.node_order@.to_set().contains(n) implies nodes.contains(n) by {
                        let a = choose|a: int|
                            0 <= a < self.node_order.len() && self.node_order[a] == n;
                        assert(self@.graph.nodes.contains_key(self.node_order[a]));
                    }
                }
                vstd::set_lib::lemma_subset_equality(self.node_order@.to_set(), nodes);
            }
            if self.node_order@.no_duplicates() && self.node_order@.to_set() == nodes {
                assert forall|k: int| 0 <= k < self.node_order.len() implies nodes.contains(
                    #[trigger] self.node_order[k],
                ) by {
                    assert(self.node_order@.to_set().contains(self.node_order[k]));
                }
            }
        }
        if !order_ok {
            return false;
        }
        if !has_no_repeats(&self.selected_nodes) || !self.all_in_graph(&self.selected_nodes) {
            return false;
        }
        if self.node_positions.len() != ids.len() {
            proof {
                self.lemma_position_count();
            }
            return false;
        }
        let mut k: usize = 0;
        while k < ids.len()
            invariant
                k <= ids.len(),
                nodes == self@.graph.nodes.dom(),
                ids@.to_set() == nodes,
                forall|a: int|
                    0 <= a < k ==> self@.node_positions.contains_key(#[trigger] ids[a]),
            decreases ids.len() - k,
        {
            if !self.node_positions.contains_key(&ids[k].key) {
                proof {
                    assert(ids@.to_set().contains(ids[k as int]));
                    assert(nodes.contains(ids[k as int]));
                }
                return false;
            }
            k += 1;
        }
        proof {
            self.lemma_position_count();
            assert(nodes.subset_of(self@.node_positions.dom())) by {
                assert forall|n: NodeId| nodes.contains(n) implies
                    self@.node_positions.dom().contains(
                    n,
                ) by {
                    assert(ids@.to_set().contains(n));
                    let a = choose|a: int| 0 <= a < ids.len() && ids[a] == n;
                    assert(self@.node_positions.contains_key(ids[a]));
                }
            }
            vstd::set_lib::lemma_subset_equality(nodes, self@.node_positions.dom());
        }
        true
    }

    /// There are as many positions as nodes that have one.
    proof fn lemma_position_count(&self)
        ensures
            self@.node_positions.dom().finite(),
            self@.node_positions.dom().len() == self.node_positions@.len(),
    {
        let by_key = self.node_positions@.dom();
        let by_node = self@.node_positions.dom();
        let node_of = |k: u64| NodeId { key: k };
        assert forall|id: NodeId| by_node.contains(id) implies exists|k: u64| #[trigger]
            node_of(k) == id by {
            assert(node_of(id.key) == id);
        }
        crate::graph_impls::lemma_rekeyed_len(by_key, by_node, node_of);
    }

    /// Selects a node: alone, or in addition to the selection.
    pub fn select(&mut self, node: NodeId, additive: bool)
        requires
            old(self).wf(),
            old(self)@.graph.nodes.contains_key(node),
        ensures
            final(self).wf(),
            final(self)@ == (EditorView {
                selected_nodes: old(self)@.selection_with(node, additive),
                ..old(self)@
            }),
    {
        if !additive {
            self.selected_nodes.clear();
        }
        if position_of(&self.selected_nodes, node).is_none() {
            self.selected_nodes.push(node);
        }
        proof {
            assert(self@.selected_nodes =~= old(self)@.selection_with(node, additive));
        }
    }

    /// Empties the selection.
    pub fn deselect_all(&mut self)
        requires
            old(self).wf(),
        ensures
            final(self).wf(),
            final(self)@ == (EditorView { selected_nodes: Seq::empty(), ..old(self)@ }),
    {
        self.selected_nodes.clear();
    }

    /// Moves a node to the end of the drawing order, so that it is drawn on
    /// top and wins where nodes overlap.
    pub fn raise(&mut self, node: NodeId)
        requires
            old(self).wf(),
            old(self)@.node_order.contains(node),
        ensures
            final(self).wf(),
            final(self)@ == (EditorView {
                node_order: old(self)@.order_with_raised(node),
                ..old(self)@
            }),
    {
        proof {
            lemma_without_node(self.node_order@, node);
        }
        remove_node_id(&mut self.node_order, node);
        self.node_order.push(node);
        proof {
            let rest = old(self)@.node_order.filter(not_node(node));
            assert(!rest.contains(node)) by {
                if rest.contains(node) {
                    assert(rest.to_set().contains(node));
                }
            }
            assert(self@.node_order.to_set() =~= old(self)@.node_order.to_set()) by {
                rest.lemma_push_to_set_commute(node);
            }
        }
    }

    /// Selects the nodes that a box selection hit, alone or in addition to
    /// the selection, in the order of the hits. A hit that is no node of the
    /// graph is passed over, and so is one that is selected already.
    pub fn box_select(&mut self, hits: &Vec<NodeId>, additive: bool)
        requires
            old(self).wf(),
        ensures
            final(self).wf(),
            final(self)@ == (EditorView {
                selected_nodes: old(self)@.selection_with_hits(hits@, additive),
                ..old(self)@
            }),
            forall|n: NodeId|
                final(self)@.selected_nodes.contains(n)
                    <==> (additive && old(self)@.selected_nodes.contains(n))
                        || (hits@.contains(n) && old(self)@.graph.nodes.contains_key(n)),
    {
        if !additive {
            self.selected_nodes.clear();
        }
        let ghost start = self.selected_nodes@;
        let ghost nodes = self@.graph.nodes.dom();
        assert(start == if additive { old(self)@.selected_nodes } else { Seq::<NodeId>::empty() });
        assert(hits@.take(0) =~= Seq::<NodeId>::empty());
        let mut k: usize = 0;
        while k < hits.len()
            invariant
                k <= hits.len(),
                self.wf(),
                self@ == (EditorView { selected_nodes: self@.selected_nodes, ..old(self)@ }),
                nodes == old(self)@.graph.nodes.dom(),
                self.selected_nodes@ == hits_added(start, hits@.take(k as int), nodes),
            decreases hits.len() - k,
        {
            let hit = hits[k];
            let ghost before = self.selected_nodes@;
            proof {
                assert(hits@.take(k + 1).drop_last() =~= hits@.take(k as int));
                assert(hits@.take(k + 1).last() == hit);
            }
            if self.graph.try_get_node(hit).is_some() && position_of(
                &self.selected_nodes,
                hit,
            ).is_none() {
                self.selected_nodes.push(hit);
                proof {
                    assert forall|a: int, b: int|
                        0 <= a < self.selected_nodes@.len() && 0 <= b < self.selected_nodes@.len()
                            && a != b implies self.selected_nodes@[a]
                                != self.selected_nodes@[b] by {
                        if a < before.len() {
                            assert(before.contains(self.selected_nodes@[a]));
                        }
                        if b < before.len() {
                            assert(before.contains(self.selected_nodes@[b]));
                        }
                    }
                }
            }
            k += 1;
        }
        proof {
            assert(hits@.take(hits.len() as int) =~= hits@);
            lemma_hits_added(start, hits@, nodes);
            assert forall|n: NodeId|
                self.selected_nodes@.contains(n)
                    <==> (additive && old(self)@.selected_nodes.contains(
                    n,
                )) || (hits@.contains(n) && nodes.contains(n)) by {
                assert(start.contains(n) <==> additive && old(self)@.selected_nodes.contains(n));
            }
        }
    }
}

} // verus!

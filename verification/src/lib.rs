//! Data and interaction core of a visual node-graph editor.
//!
//! The graph ([`graph_impls::Graph`]) holds nodes, their input and output
//! ports, and the connections from outputs to inputs, each under an identity
//! that it keeps for as long as it lives. The editor's state
//! ([`ui_state::GraphEditorState`]) adds the drawing order, the selection and
//! what is under way. The host draws the editor, says what the pointer and the
//! keys did ([`interaction`]), and hands the responses that it collected to the
//! state, which resolves them in their order ([`editor_ui`]).
//!
//! Every operation has a contract over a mathematical model of the graph
//! ([`graph::GraphView`]) and of the editor ([`ui_state::EditorView`]), and
//! Verus proves that it keeps to it. What rests on trust is in [`arena`].

pub mod arena;
pub mod editor_ui;
pub mod graph;
pub mod graph_copy;
pub mod graph_impls;
pub mod id_type;
pub mod interaction;
pub mod ui_state;

//! Identities of nodes and of their ports.
//!
//! An identity is the 64-bit form of a generational key: the slot in the low
//! half, the slot's version above it. A slot that is used again gets another
//! version, so the identity of a removed item matches no later item.

use vstd::prelude::*;

verus! {

/// Identity of a node.
#[derive(Clone, Copy, Debug, PartialEq, Eq, Hash, PartialOrd, Ord, Structural)]
pub struct NodeId {
    pub key: u64,
}

/// Identity of an input port.
#[derive(Clone, Copy, Debug, PartialEq, Eq, Hash, PartialOrd, Ord, Structural)]
pub struct InputId {
    pub key: u64,
}

/// Identity of an output port.
#[derive(Clone, Copy, Debug, PartialEq, Eq, Hash, PartialOrd, Ord, Structural)]
pub struct OutputId {
    pub key: u64,
}

/// A port of either direction.
#[derive(Clone, Copy, Debug, PartialEq, Eq, Hash, PartialOrd, Ord, Structural)]
pub enum AnyParameterId {
    Input(InputId),
    Output(OutputId),
}

impl AnyParameterId {
    /// The input port that this is.
    pub fn assume_input(&self) -> (input: InputId)
        requires
            self is Input,
        ensures
            *self == AnyParameterId::Input(input),
    {
        match self {
            AnyParameterId::Input(input) => *input,
            AnyParameterId::Output(_) => unreached(),
        }
    }

    /// The output port that this is.
    pub fn assume_output(&self) -> (output: OutputId)
        requires
            self is Output,
        ensures
            *self == AnyParameterId::Output(output),
    {
        match self {
            AnyParameterId::Output(output) => *output,
            AnyParameterId::Input(_) => unreached(),
        }
    }
}

impl From<InputId> for AnyParameterId {
    fn from(input: InputId) -> (param: Self) {
        AnyParameterId::Input(input)
    }
}

impl vstd::std_specs::convert::FromSpecImpl<InputId> for AnyParameterId {
    open spec fn obeys_from_spec() -> bool {
        true
    }

    open spec fn from_spec(input: InputId) -> Self {
        AnyParameterId::Input(input)
    }
}

impl From<OutputId> for AnyParameterId {
    fn from(output: OutputId) -> (param: Self) {
        AnyParameterId::Output(output)
    }
}

impl vstd::std_specs::convert::FromSpecImpl<OutputId> for AnyParameterId {
    open spec fn obeys_from_spec() -> bool {
        true
    }

    open spec fn from_spec(output: OutputId) -> Self {
        AnyParameterId::Output(output)
    }
}

} // verus!

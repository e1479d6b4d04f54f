//! Identities, port data and error kinds shared by the whole engine.

use vstd::prelude::*;

verus! {

/// Identity of a node: its position in the graph's node arena.
#[derive(Clone, Copy, Debug, PartialEq, Eq, Structural, Hash)]
pub struct NodeId(pub usize);

/// Identity of an input port: its position in the graph's input arena.
#[derive(Clone, Copy, Debug, PartialEq, Eq, Structural, Hash)]
pub struct InputId(pub usize);

/// Identity of an output port: its position in the graph's output arena.
#[derive(Clone, Copy, Debug, PartialEq, Eq, Structural, Hash)]
pub struct OutputId(pub usize);

/// The data-type tag carried by every port.
#[derive(Clone, Copy, Debug, PartialEq, Eq, Structural)]
pub enum NodeType {
    Component,
}

/// Weibull parameters of a block, the value that travels along connections.
///
/// `shape` and `scale` are held in thousandths, so that `500` stands for a
/// shape of one half. `time_steps` is the number of steps over which the
/// failure curve of the block is drawn.
#[derive(Clone, Copy, Debug, PartialEq, Eq, Structural)]
pub struct NodeParameters {
    pub shape: u64,
    pub scale: u64,
    pub time_steps: u32,
}

impl NodeParameters {
    /// The parameters a port starts with: shape 0.5, scale 200, 730 steps.
    pub open spec fn spec_default() -> NodeParameters {
        NodeParameters { shape: 500, scale: 200_000, time_steps: 730 }
    }

    /// Field by field, the smaller of the two parameter sets.
    pub open spec fn spec_weakest(self, other: NodeParameters) -> NodeParameters {
        NodeParameters {
            shape: if self.shape <= other.shape { self.shape } else { other.shape },
            scale: if self.scale <= other.scale { self.scale } else { other.scale },
            time_steps: if self.time_steps <= other.time_steps {
                self.time_steps
            } else {
                other.time_steps
            },
        }
    }

    /// Field by field, the smaller of the two parameter sets.
    pub fn weakest(self, other: NodeParameters) -> (r: NodeParameters)
        ensures
            r == self.spec_weakest(other),
    {
        NodeParameters {
            shape: if self.shape <= other.shape { self.shape } else { other.shape },
            scale: if self.scale <= other.scale { self.scale } else { other.scale },
            time_steps: if self.time_steps <= other.time_steps {
                self.time_steps
            } else {
                other.time_steps
            },
        }
    }
}

impl Default for NodeParameters {
    fn default() -> (r: NodeParameters)
        ensures
            r == NodeParameters::spec_default(),
    {
        NodeParameters { shape: 500, scale: 200_000, time_steps: 730 }
    }
}

/// What the editor holds besides the graph: the node whose value is shown.
#[derive(Clone, Copy, Debug, PartialEq, Eq, Structural)]
pub struct GraphState {
    pub active_node: Option<NodeId>,
}

impl Default for GraphState {
    fn default() -> (r: GraphState)
        ensures
            r.active_node is None,
    {
        GraphState { active_node: None }
    }
}

/// The kinds of node that a diagram can hold.
#[derive(Clone, Copy, Debug, PartialEq, Eq, Structural)]
pub enum NodeTemplate {
    CreateComponent,
}

/// What a node carries besides its ports: the kind it was made from.
#[derive(Clone, Copy, Debug, PartialEq, Eq, Structural)]
pub struct NodeData {
    pub template: NodeTemplate,
}

/// Why an evaluation request failed.
#[derive(Clone, Copy, Debug, PartialEq, Eq, Structural)]
pub enum EvalError {
    /// A node or port identity does not exist in the graph.
    NotFound,
    /// The node has no port of the given name.
    UnknownPort,
    /// A node depends, through connections, on itself.
    CyclicDependency,
    /// A connected input was read before its source had been computed.
    CacheNotPopulated,
}

/// Why an edit of the graph was refused.
#[derive(Clone, Copy, Debug, PartialEq, Eq, Structural)]
pub enum EditError {
    /// A node or port identity does not exist in the graph.
    NotFound,
    /// The node already has a port of that name in the same direction.
    DuplicatePort,
    /// The input already has an incoming connection.
    InputConnected,
    /// The connection would close a cycle.
    Cycle,
}

} // verus!

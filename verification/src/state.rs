//! The editor's choice of an active node, and the value shown for it.

use crate::cache::OutputsCache;
use crate::evaluator::evaluate_node;
use crate::graph::Graph;
use crate::semantics::node_outputs;
use crate::types::{EvalError, GraphState, NodeId, NodeParameters};
use vstd::prelude::*;

verus! {

/// What a node of the diagram can ask of the editor.
#[derive(Clone, Copy, Debug, PartialEq, Eq, Structural)]
pub enum MyResponse {
    SetActiveNode(NodeId),
    ClearActiveNode,
}

impl GraphState {
    /// Takes a node's request: the active node becomes the one named, or
    /// none.
    pub fn respond(&mut self, response: MyResponse)
        ensures
            final(self).active_node == match response {
                MyResponse::SetActiveNode(node) => Some(node),
                MyResponse::ClearActiveNode => None,
            },
    {
        match response {
            MyResponse::SetActiveNode(node) => { self.active_node = Some(node); },
            MyResponse::ClearActiveNode => { self.active_node = None; },
        }
    }

    /// The outcome of evaluating the active node in a pass of its own, for
    /// the editor to show. An active node that is no longer in the graph is
    /// given up: there is none afterwards, and nothing to show.
    pub fn evaluate_active(&mut self, graph: &Graph) -> (r: Option<
        Result<Vec<NodeParameters>, EvalError>,
    >)
        requires
            graph.wf(),
        ensures
            match old(self).active_node {
                None => r is None && final(self).active_node is None,
                Some(node) => if graph@.nodes.contains_key(node) {
                    &&& final(self).active_node == Some(node)
                    &&& r is Some
                    &&& match r->0 {
                        Ok(values) => node_outputs(graph@, node, Set::empty()) == Ok::<
                            Seq<NodeParameters>,
                            EvalError,
                        >(values@),
                        Err(e) => node_outputs(graph@, node, Set::empty()) == Err::<
                            Seq<NodeParameters>,
                            EvalError,
                        >(e),
                    }
                } else {
                    r is None && final(self).active_node is None
                },
            },
    {
        match self.active_node {
            None => None,
            Some(node) => {
                if graph.get_node(node).is_ok() {
                    let mut cache = OutputsCache::new();
                    Some(evaluate_node(graph, node, &mut cache))
                } else {
                    self.active_node = None;
                    None
                }
            },
        }
    }
}

} // verus!

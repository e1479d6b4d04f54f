//! Connecting ports without ever closing a cycle.

use crate::cache::OutputsCache;
use crate::evaluator::evaluate_node;
use crate::graph::Graph;
use crate::laws::{law_cycle_is_reported, law_only_cycles_fail, law_reported_cycle_exists};
use crate::semantics::depends_on_cycle;
use crate::types::{EditError, InputId, OutputId};
use vstd::prelude::*;

verus! {

/// Connects `output` to `input` unless the node of `input` would then be on
/// a cycle of connections or depend on one, which it finds out by evaluating
/// that node in a pass of its own. Refused as `add_connection` refuses, and
/// with `Cycle` in that case; a refusal leaves the graph as it was.
pub fn connect(graph: &mut Graph, output: OutputId, input: InputId) -> (r: Result<(), EditError>)
    requires
        old(graph).wf(),
    ensures
        final(graph).wf(),
        match r {
            Ok(()) => {
                &&& old(graph)@.inputs.contains_key(input)
                &&& old(graph)@.outputs.contains_key(output)
                &&& old(graph)@.connection_of(input) is None
                &&& final(graph)@ == old(graph)@.with_connection(input, Some(output))
                &&& !depends_on_cycle(final(graph)@, old(graph)@.inputs[input].node)
            },
            Err(e) => {
                &&& final(graph)@ == old(graph)@
                &&& if !old(graph)@.inputs.contains_key(input) || !old(graph)@.outputs.contains_key(
                    output,
                ) {
                    e == EditError::NotFound
                } else if old(graph)@.connection_of(input) is Some {
                    e == EditError::InputConnected
                } else {
                    e == EditError::Cycle && depends_on_cycle(
                        old(graph)@.with_connection(input, Some(output)),
                        old(graph)@.inputs[input].node,
                    )
                }
            },
        },
{
    match graph.add_connection(output, input) {
        Ok(()) => {},
        Err(e) => { return Err(e); },
    }
    let node = match graph.input(input) {
        Ok(port) => port.node,
        Err(_) => { return Err(EditError::NotFound); },
    };
    let ghost connected = graph@;
    proof {
        assert(connected.input_ok(input));
    }
    let mut cache = OutputsCache::new();
    match evaluate_node(graph, node, &mut cache) {
        Ok(_) => {
            proof {
                if depends_on_cycle(connected, node) {
                    law_cycle_is_reported(connected, node);
                }
            }
            Ok(())
        },
        Err(e) => {
            proof {
                law_only_cycles_fail(connected, node, Set::empty());
                law_reported_cycle_exists(connected, node);
            }
            graph.remove_connection(input);
            proof {
                let before = old(graph)@;
                assert(graph@.inputs =~= before.inputs);
            }
            Err(EditError::Cycle)
        },
    }
}

} // verus!

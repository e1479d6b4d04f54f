//! The registry of node kinds: what each kind is called, which ports a node
//! of the kind is given, and what it computes.

use crate::graph::{Graph, GraphView};
use crate::types::{
    EditError, GraphState, InputId, NodeData, NodeId, NodeParameters, NodeTemplate, NodeType,
    OutputId,
};
use vstd::prelude::*;

verus! {

/// The list of all node kinds, for a menu to offer.
pub struct AllNodeTemplates;

impl AllNodeTemplates {
    /// Every kind, once.
    pub fn all_kinds(&self) -> (kinds: Vec<NodeTemplate>)
        ensures
            kinds@ == seq![NodeTemplate::CreateComponent],
    {
        let mut kinds: Vec<NodeTemplate> = Vec::new();
        kinds.push(NodeTemplate::CreateComponent);
        assert(kinds@ =~= seq![NodeTemplate::CreateComponent]);
        kinds
    }
}

/// Field by field, the smallest of a non-empty run of parameter sets.
pub open spec fn weakest_of(values: Seq<NodeParameters>) -> NodeParameters
    decreases values.len(),
{
    if values.len() <= 1 {
        values[0]
    } else {
        weakest_of(values.drop_last()).spec_weakest(values.last())
    }
}

impl NodeTemplate {
    /// What a node of this kind puts on each of its `outputs` outputs, given
    /// the values of its inputs in declared order: a component passes on the
    /// weakest of what feeds it, and its default parameters when nothing does.
    pub open spec fn spec_compute(self, inputs: Seq<NodeParameters>, outputs: nat) -> Seq<
        NodeParameters,
    > {
        match self {
            NodeTemplate::CreateComponent => {
                let value = if inputs.len() == 0 {
                    NodeParameters::spec_default()
                } else {
                    weakest_of(inputs)
                };
                Seq::new(outputs, |k: int| value)
            },
        }
    }

    /// Computes the outputs of a node of this kind from the values of its
    /// inputs. It reads nothing else, so equal inputs give equal outputs.
    pub fn compute(&self, inputs: &Vec<NodeParameters>, outputs: usize) -> (r: Vec<NodeParameters>)
        ensures
            r@ == self.spec_compute(inputs@, outputs as nat),
    {
        match self {
            NodeTemplate::CreateComponent => {
                let mut value = NodeParameters::default();
                let mut k: usize = 0;
                while k < inputs.len()
                    invariant
                        k <= inputs.len(),
                        k == 0 ==> value == NodeParameters::spec_default(),
                        k > 0 ==> value == weakest_of(inputs@.take(k as int)),
                    decreases inputs.len() - k,
                {
                    if k == 0 {
                        value = inputs[k];
                    } else {
                        value = value.weakest(inputs[k]);
                    }
                    proof {
                        let next = inputs@.take(k + 1);
                        assert(next.drop_last() =~= inputs@.take(k as int));
                    }
                    k = k + 1;
                }
                assert(inputs@.take(inputs.len() as int) =~= inputs@);
                let mut out: Vec<NodeParameters> = Vec::new();
                let mut j: usize = 0;
                while j < outputs
                    invariant
                        j <= outputs,
                        out@ == Seq::new(j as nat, |k: int| value),
                    decreases outputs - j,
                {
                    out.push(value);
                    j = j + 1;
                    assert(out@ =~= Seq::new(j as nat, |k: int| value));
                }
                out
            },
        }
    }

    /// The name under which the kind is offered in the menu.
    pub fn node_finder_label(&self, user_state: &mut GraphState) -> (label: &'static str)
        ensures
            *final(user_state) == *old(user_state),
            label@ == "Create Component"@,
    {
        match self {
            NodeTemplate::CreateComponent => "Create Component",
        }
    }

    /// The title of a node of this kind: the name it is offered under.
    pub fn node_graph_label(&self, user_state: &mut GraphState) -> (label: String)
        ensures
            *final(user_state) == *old(user_state),
            label@ == "Create Component"@,
    {
        self.node_finder_label(user_state).to_owned()
    }

    /// What a new node of this kind carries.
    pub fn user_data(&self, user_state: &mut GraphState) -> (data: NodeData)
        ensures
            *final(user_state) == *old(user_state),
            data.template == *self,
    {
        NodeData { template: *self }
    }

    /// Gives node `node_id` the ports of this kind: for a component the inputs
    /// "A" and "B", each with the default parameters as its literal, and the
    /// output "out". Refused, with the graph left as it was, when the node
    /// does not exist or already has a port of one of these names.
    pub fn build_node(&self, graph: &mut Graph, user_state: &mut GraphState, node_id: NodeId) -> (r:
        Result<(), EditError>)
        requires
            old(graph).wf(),
        ensures
            final(graph).wf(),
            *final(user_state) == *old(user_state),
            match r {
                Ok(()) => final(graph)@ == component_ports(old(graph)@, node_id),
                Err(e) => {
                    &&& final(graph)@ == old(graph)@
                    &&& if old(graph)@.nodes.contains_key(node_id) {
                        e == EditError::DuplicatePort
                    } else {
                        e == EditError::NotFound
                    }
                },
            },
            r is Ok <==> takes_component_ports(old(graph)@, node_id),
    {
        proof {
            reveal_strlit("A");
            reveal_strlit("B");
        }
        match self {
            NodeTemplate::CreateComponent => {
                if graph.get_node(node_id).is_err() {
                    return Err(EditError::NotFound);
                }
                if graph.get_input(node_id, "A").is_ok() || graph.get_input(node_id, "B").is_ok()
                    || graph.get_output(node_id, "out").is_ok() {
                    return Err(EditError::DuplicatePort);
                }
                let ghost g0 = graph@;
                let a = match graph.add_input_param(
                    node_id,
                    "A".to_owned(),
                    NodeType::Component,
                    NodeParameters::default(),
                ) {
                    Ok(a) => a,
                    Err(e) => {
                        assert(false);
                        return Err(e);
                    },
                };
                let ghost g1 = graph@;
                proof {
                    assert("A"@ != "B"@) by {
                        assert("A"@[0] == 'A');
                        assert("B"@[0] == 'B');
                    }
                    assert forall|j: InputId| !g1.named_input(node_id, "B"@, j) by {
                        if g1.named_input(node_id, "B"@, j) {
                            if j != a {
                                let k = choose|k: int|
                                    0 <= k < g1.nodes[node_id].inputs.len()
                                        && g1.nodes[node_id].inputs[k] == j;
                                assert(g0.nodes[node_id].inputs[k] == j);
                                assert(g0.named_input(node_id, "B"@, j));
                            }
                        }
                    }
                }
                let b = match graph.add_input_param(
                    node_id,
                    "B".to_owned(),
                    NodeType::Component,
                    NodeParameters::default(),
                ) {
                    Ok(b) => b,
                    Err(e) => {
                        assert(false);
                        return Err(e);
                    },
                };
                let ghost g2 = graph@;
                proof {
                    assert forall|j: OutputId|
                        !g2.named_output(node_id, "out"@, j) by {
                        if g2.named_output(node_id, "out"@, j) {
                            assert(g0.named_output(node_id, "out"@, j));
                        }
                    }
                }
                let o = match graph.add_output_param(
                    node_id,
                    "out".to_owned(),
                    NodeType::Component,
                ) {
                    Ok(o) => o,
                    Err(e) => {
                        assert(false);
                        return Err(e);
                    },
                };
                proof {
                    assert(component_ports(g0, node_id) == graph@);
                }
                Ok(())
            },
        }
    }
}

/// Node `n` exists and has no input named "A" or "B" and no output named
/// "out": it can be given the ports of a component.
pub open spec fn takes_component_ports(g: GraphView, n: NodeId) -> bool {
    &&& g.nodes.contains_key(n)
    &&& forall|i: InputId| !g.named_input(n, "A"@, i) && !g.named_input(n, "B"@, i)
    &&& forall|o: OutputId| !g.named_output(n, "out"@, o)
}

/// The graph after node `n` has been given the ports of a component: two new
/// inputs under the names "A" and "B", with the default parameters, and a new
/// output under the name "out".
pub open spec fn component_ports(g: GraphView, n: NodeId) -> GraphView {
    let with_a = g.with_input(
        n,
        g.next_input(),
        "A"@,
        NodeType::Component,
        NodeParameters::spec_default(),
    );
    let with_b = with_a.with_input(
        n,
        with_a.next_input(),
        "B"@,
        NodeType::Component,
        NodeParameters::spec_default(),
    );
    with_b.with_output(n, with_b.next_output(), "out"@, NodeType::Component)
}

} // verus!

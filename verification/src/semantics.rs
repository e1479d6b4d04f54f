//! What evaluation means: the value of a node, of its inputs and of an
//! output, as mathematical functions of the graph's content.
//!
//! The functions walk the graph backward along connections. `active` is the
//! set of nodes whose evaluation is under way on the path walked so far; to
//! meet one of them again is to have found a cycle.

use crate::graph::GraphView;
use crate::types::{EvalError, InputId, NodeId, NodeParameters, OutputId};
use vstd::prelude::*;

verus! {

/// The place of `id` in `ids`.
pub open spec fn position(ids: Seq<OutputId>, id: OutputId) -> int {
    choose|k: int| 0 <= k < ids.len() && ids[k] == id
}

/// To start on a node that is not under way leaves fewer nodes to start on:
/// the measure by which the walk ends.
pub proof fn lemma_fewer_remain(nodes: Set<NodeId>, active: Set<NodeId>, n: NodeId)
    requires
        nodes.finite(),
        nodes.contains(n),
        !active.contains(n),
    ensures
        nodes.difference(active.insert(n)).len() < nodes.difference(active).len(),
{
    let before = nodes.difference(active);
    assert(before.finite());
    assert(before.contains(n));
    assert(nodes.difference(active.insert(n)) =~= before.remove(n));
}

/// The values of all outputs of node `n`, in declared order.
pub open spec fn node_outputs(g: GraphView, n: NodeId, active: Set<NodeId>) -> Result<
    Seq<NodeParameters>,
    EvalError,
>
    decreases g.nodes.dom().difference(active).len(), 0nat, 0nat,
    when g.nodes.dom().finite()
{
    if !g.nodes.contains_key(n) {
        Err(EvalError::NotFound)
    } else if active.contains(n) {
        Err(EvalError::CyclicDependency)
    } else {
        proof {
            lemma_fewer_remain(g.nodes.dom(), active, n);
        }
        match input_values(g, n, active.insert(n), g.nodes[n].inputs.len()) {
            Err(e) => Err(e),
            Ok(values) => Ok(
                g.nodes[n].user_data.template.spec_compute(values, g.nodes[n].outputs.len()),
            ),
        }
    }
}

/// The values of the first `count` inputs of node `n`, in declared order, or
/// the error of the first among them that has none.
pub open spec fn input_values(g: GraphView, n: NodeId, active: Set<NodeId>, count: nat) -> Result<
    Seq<NodeParameters>,
    EvalError,
>
    decreases g.nodes.dom().difference(active).len(), 2nat, count,
    when g.nodes.dom().finite()
{
    if count == 0 {
        Ok(Seq::empty())
    } else {
        match input_values(g, n, active, (count - 1) as nat) {
            Err(e) => Err(e),
            Ok(values) => match input_value(g, g.nodes[n].inputs[count - 1], active) {
                Err(e) => Err(e),
                Ok(v) => Ok(values.push(v)),
            },
        }
    }
}

/// The value that input `i` takes: that of the output it is connected to,
/// and its inline literal only where it has no connection.
pub open spec fn input_value(g: GraphView, i: InputId, active: Set<NodeId>) -> Result<
    NodeParameters,
    EvalError,
>
    decreases g.nodes.dom().difference(active).len(), 1nat, 1nat,
    when g.nodes.dom().finite()
{
    if !g.inputs.contains_key(i) {
        Err(EvalError::NotFound)
    } else {
        match g.inputs[i].connection {
            None => Ok(g.inputs[i].value),
            Some(o) => output_value(g, o, active),
        }
    }
}

/// The value of output `o`: what the node that owns it computes for it. (An
/// output that its node does not list has none; in a well-formed graph there
/// is no such output.)
pub open spec fn output_value(g: GraphView, o: OutputId, active: Set<NodeId>) -> Result<
    NodeParameters,
    EvalError,
>
    decreases g.nodes.dom().difference(active).len(), 1nat, 0nat,
    when g.nodes.dom().finite()
{
    if !g.outputs.contains_key(o) {
        Err(EvalError::NotFound)
    } else {
        let n = g.outputs[o].node;
        match node_outputs(g, n, active) {
            Err(e) => Err(e),
            Ok(values) => if g.nodes[n].outputs.contains(o) {
                Ok(values[position(g.nodes[n].outputs, o)])
            } else {
                Err(EvalError::CacheNotPopulated)
            },
        }
    }
}

/// An output of `m` is connected to an input of `n`.
pub open spec fn feeds(g: GraphView, m: NodeId, n: NodeId) -> bool {
    &&& g.nodes.contains_key(n)
    &&& exists|k: int|
        0 <= k < g.nodes[n].inputs.len() && connects(g, m, #[trigger] g.nodes[n].inputs[k])
}

/// Input `i` is connected to an output of `m`.
pub open spec fn connects(g: GraphView, m: NodeId, i: InputId) -> bool {
    g.inputs[i].connection matches Some(o) && g.outputs[o].node == m
}

/// Each node of the chain is fed by the node after it.
pub open spec fn is_chain(g: GraphView, chain: Seq<NodeId>) -> bool {
    forall|j: int| 0 < j < chain.len() ==> feeds(g, #[trigger] chain[j], chain[j - 1])
}

/// Node `n` depends on node `m`: a chain of connections leads from `m` to
/// `n`. Every node depends on itself.
pub open spec fn reaches(g: GraphView, n: NodeId, m: NodeId) -> bool {
    exists|chain: Seq<NodeId>| #[trigger]
        is_chain(g, chain) && chain.len() >= 1 && chain.first() == n && chain.last() == m
}

/// Every node depends on itself.
pub proof fn lemma_reaches_self(g: GraphView, n: NodeId)
    ensures
        reaches(g, n, n),
{
    let chain = seq![n];
    assert(is_chain(g, chain));
    assert(chain.first() == n && chain.last() == n);
}

/// What a node depends on, the nodes it feeds depend on too.
pub proof fn lemma_reaches_step(g: GraphView, n: NodeId, m: NodeId, x: NodeId)
    requires
        feeds(g, m, n),
        reaches(g, m, x),
    ensures
        reaches(g, n, x),
{
    let tail = choose|chain: Seq<NodeId>| #[trigger]
        is_chain(g, chain) && chain.len() >= 1 && chain.first() == m && chain.last() == x;
    let chain = seq![n] + tail;
    assert forall|j: int| 0 < j < chain.len() implies feeds(g, #[trigger] chain[j], chain[j - 1]) by {
        if j == 1 {
            assert(chain[1] == tail[0]);
        } else {
            assert(chain[j] == tail[j - 1]);
            assert(chain[j - 1] == tail[j - 2]);
            assert(feeds(g, tail[j - 1], tail[j - 1 - 1]));
        }
    }
    assert(is_chain(g, chain));
    assert(chain.first() == n);
    assert(chain.last() == tail.last());
}

/// A set closed under sources holds, with a node, all that the node depends
/// on.
pub proof fn lemma_closed_holds_reached(g: GraphView, done: Set<NodeId>, n: NodeId, x: NodeId)
    requires
        closed_under_sources(g, done),
        done.contains(n),
        reaches(g, n, x),
    ensures
        done.contains(x),
{
    let chain = choose|chain: Seq<NodeId>| #[trigger]
        is_chain(g, chain) && chain.len() >= 1 && chain.first() == n && chain.last() == x;
    lemma_closed_holds_chain(g, done, chain, chain.len() - 1);
}

/// A set closed under sources holds, with the first node of a chain, every
/// node of the chain.
pub proof fn lemma_closed_holds_chain(g: GraphView, done: Set<NodeId>, chain: Seq<NodeId>, j: int)
    requires
        closed_under_sources(g, done),
        is_chain(g, chain),
        0 <= j < chain.len(),
        done.contains(chain[0]),
    ensures
        done.contains(chain[j]),
    decreases j,
{
    if j > 0 {
        lemma_closed_holds_chain(g, done, chain, j - 1);
        let n = chain[j - 1];
        let m = chain[j];
        assert(feeds(g, m, n));
        assert(sources_in(g, done, n));
        let k = choose|k: int|
            0 <= k < g.nodes[n].inputs.len() && connects(g, m, #[trigger] g.nodes[n].inputs[k]);
        assert(g.inputs[g.nodes[n].inputs[k]].connection is Some);
    }
}

/// A chain that ends on a node it has passed before: it leads into a cycle
/// of connections, or is one.
pub open spec fn lasso(g: GraphView, chain: Seq<NodeId>) -> bool {
    &&& is_chain(g, chain)
    &&& chain.len() >= 2
    &&& exists|j: int| 0 <= j < chain.len() - 1 && #[trigger] chain[j] == chain.last()
}

/// Node `n` is on a cycle of connections or depends on a node that is.
pub open spec fn depends_on_cycle(g: GraphView, n: NodeId) -> bool {
    exists|chain: Seq<NodeId>| #[trigger] lasso(g, chain) && chain[0] == n
}

/// No chain of connections leads back to a node it has passed.
pub open spec fn acyclic(g: GraphView) -> bool {
    forall|chain: Seq<NodeId>| !#[trigger] lasso(g, chain)
}

/// The inline literals of the inputs of node `n`, in declared order.
pub open spec fn literals(g: GraphView, n: NodeId) -> Seq<NodeParameters> {
    Seq::new(g.nodes[n].inputs.len(), |k: int| g.inputs[g.nodes[n].inputs[k]].value)
}

/// `n` stands at one place of `nodes` and no other.
pub open spec fn exactly_once(nodes: Seq<NodeId>, n: NodeId) -> bool {
    &&& nodes.contains(n)
    &&& forall|j: int, k: int|
        0 <= j < nodes.len() && 0 <= k < nodes.len() && nodes[j] == n && nodes[k] == n ==> j == k
}

/// What input `i` resolves to against the values held in a cache, without
/// evaluating anything: the held value of the output it is connected to, an
/// error where that output has no held value, and its inline literal where
/// it has no connection.
pub open spec fn resolved(g: GraphView, held: Map<OutputId, NodeParameters>, i: InputId) -> Result<
    NodeParameters,
    EvalError,
> {
    match g.inputs[i].connection {
        None => Ok(g.inputs[i].value),
        Some(o) => if held.contains_key(o) {
            Ok(held[o])
        } else {
            Err(EvalError::CacheNotPopulated)
        },
    }
}

/// Every connected input of node `n` is fed by a node in `done`.
pub open spec fn sources_in(g: GraphView, done: Set<NodeId>, n: NodeId) -> bool {
    forall|k: int|
        0 <= k < g.nodes[n].inputs.len() ==> (
        #[trigger] g.inputs[g.nodes[n].inputs[k]].connection matches Some(o) ==> done.contains(
            g.outputs[o].node,
        ))
}

/// `done` holds only nodes of the graph, and with a node all that feed it.
pub open spec fn closed_under_sources(g: GraphView, done: Set<NodeId>) -> bool {
    forall|n: NodeId| #[trigger]
        done.contains(n) ==> g.nodes.contains_key(n) && sources_in(g, done, n)
}

/// Once the first inputs of a node have failed, taking more of them fails in
/// the same way: the first error is the one that counts.
pub proof fn lemma_first_error_stays(
    g: GraphView,
    n: NodeId,
    active: Set<NodeId>,
    count: nat,
    more: nat,
)
    requires
        g.nodes.dom().finite(),
        count <= more,
        input_values(g, n, active, count) is Err,
    ensures
        input_values(g, n, active, more) == input_values(g, n, active, count),
    decreases more,
{
    if count < more {
        lemma_first_error_stays(g, n, active, count, (more - 1) as nat);
    }
}

/// The values of the first inputs of a node are as many as were asked for.
pub proof fn lemma_input_values_len(g: GraphView, n: NodeId, active: Set<NodeId>, count: nat)
    requires
        g.nodes.dom().finite(),
        input_values(g, n, active, count) is Ok,
    ensures
        input_values(g, n, active, count)->Ok_0.len() == count,
    decreases count,
{
    if count > 0 {
        lemma_input_values_len(g, n, active, (count - 1) as nat);
    }
}

/// The value of a node in a set closed under sources does not depend on the
/// path by which the node is reached: nodes outside the set may be added to
/// those under way without changing it.
pub proof fn lemma_node_any_path(
    g: GraphView,
    done: Set<NodeId>,
    n: NodeId,
    active: Set<NodeId>,
    others: Set<NodeId>,
)
    requires
        g.well_formed(),
        closed_under_sources(g, done),
        done.contains(n),
        others.disjoint(done),
        node_outputs(g, n, active) is Ok,
    ensures
        node_outputs(g, n, active.union(others)) == node_outputs(g, n, active),
    decreases g.nodes.dom().difference(active).len(), 0nat, 0nat,
{
    lemma_fewer_remain(g.nodes.dom(), active, n);
    let count = g.nodes[n].inputs.len();
    lemma_inputs_any_path(g, done, n, active.insert(n), others, count);
    assert(active.union(others).insert(n) =~= active.insert(n).union(others));
}

/// The same for the first inputs of such a node.
pub proof fn lemma_inputs_any_path(
    g: GraphView,
    done: Set<NodeId>,
    n: NodeId,
    active: Set<NodeId>,
    others: Set<NodeId>,
    count: nat,
)
    requires
        g.well_formed(),
        closed_under_sources(g, done),
        done.contains(n),
        others.disjoint(done),
        count <= g.nodes[n].inputs.len(),
        input_values(g, n, active, count) is Ok,
    ensures
        input_values(g, n, active.union(others), count) == input_values(g, n, active, count),
    decreases g.nodes.dom().difference(active).len(), 1nat, count,
{
    if count > 0 {
        lemma_inputs_any_path(g, done, n, active, others, (count - 1) as nat);
        let i = g.nodes[n].inputs[count - 1];
        assert(g.node_ok(n));
        assert(g.inputs.contains_key(i));
        let both = active.union(others);
        assert(input_values(g, n, active, (count - 1) as nat) is Ok);
        assert(input_value(g, i, active) is Ok);
        match g.inputs[i].connection {
            None => {},
            Some(o) => {
                assert(sources_in(g, done, n));
                assert(g.input_ok(i));
                let m = g.outputs[o].node;
                assert(done.contains(m));
                assert(input_value(g, i, active) == output_value(g, o, active));
                assert(node_outputs(g, m, active) is Ok);
                lemma_node_any_path(g, done, m, active, others);
                assert(output_value(g, o, both) == output_value(g, o, active));
                assert(input_value(g, i, both) == output_value(g, o, both));
            },
        }
        assert(input_value(g, i, both) == input_value(g, i, active));
    }
}

/// A node whose sources all lie in a set closed under sources, each with a
/// value, takes the same input values on every path that stays outside the
/// set.
pub proof fn lemma_ready_inputs_any_path(
    g: GraphView,
    done: Set<NodeId>,
    n: NodeId,
    first: Set<NodeId>,
    second: Set<NodeId>,
    count: nat,
)
    requires
        g.well_formed(),
        closed_under_sources(g, done),
        forall|m: NodeId| #[trigger] done.contains(m) ==> node_outputs(g, m, Set::empty()) is Ok,
        g.nodes.contains_key(n),
        sources_in(g, done, n),
        first.disjoint(done),
        second.disjoint(done),
        count <= g.nodes[n].inputs.len(),
    ensures
        input_values(g, n, first, count) == input_values(g, n, second, count),
    decreases count,
{
    if count > 0 {
        lemma_ready_inputs_any_path(g, done, n, first, second, (count - 1) as nat);
        let i = g.nodes[n].inputs[count - 1];
        assert(g.node_ok(n));
        assert(g.inputs.contains_key(i));
        match g.inputs[i].connection {
            None => {},
            Some(o) => {
                assert(g.input_ok(i));
                let m = g.outputs[o].node;
                assert(done.contains(m));
                lemma_node_any_path(g, done, m, Set::empty(), first);
                lemma_node_any_path(g, done, m, Set::empty(), second);
                assert(Set::<NodeId>::empty().union(first) =~= first);
                assert(Set::<NodeId>::empty().union(second) =~= second);
                assert(node_outputs(g, m, first) == node_outputs(g, m, second));
                assert(output_value(g, o, first) == output_value(g, o, second));
                assert(input_value(g, i, first) == output_value(g, o, first));
                assert(input_value(g, i, second) == output_value(g, o, second));
            },
        }
        assert(input_value(g, i, first) == input_value(g, i, second));
    }
}

} // verus!

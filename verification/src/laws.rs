//! What holds of evaluation on every graph.

use crate::cache::OutputsCache;
use crate::evaluator::cache_valid;
use crate::graph::{Graph, GraphView};
use crate::semantics::{
    acyclic, connects, depends_on_cycle, exactly_once, feeds, input_value, input_values,
    is_chain, lasso, lemma_fewer_remain, lemma_input_values_len, literals, node_outputs,
    output_value, sources_in,
};
use crate::types::{EvalError, InputId, NodeData, NodeId, NodeParameters, OutputId};
use vstd::prelude::*;

verus! {

/// Evaluation is a function of the graph's content: two requests for the same
/// output of graphs with the same content get the same answer, whatever each
/// pass had in its cache.
pub proof fn law_evaluation_repeats(
    first: &Graph,
    second: &Graph,
    output: OutputId,
    r1: Result<NodeParameters, EvalError>,
    r2: Result<NodeParameters, EvalError>,
)
    requires
        first.wf(),
        second.wf(),
        first@ == second@,
        r1 == output_value(first@, output, Set::empty()),
        r2 == output_value(second@, output, Set::empty()),
    ensures
        r1 == r2,
{
}

/// In a pass, a node whose outputs the cache holds was computed exactly once,
/// and so was every node that feeds it.
pub proof fn law_computed_once(g: GraphView, cache: &OutputsCache, n: NodeId, m: NodeId)
    requires
        g.well_formed(),
        cache_valid(g, cache),
        cache.computed().contains(n),
        feeds(g, m, n),
    ensures
        exactly_once(cache.computed(), n),
        exactly_once(cache.computed(), m),
{
    let computed = cache.computed();
    assert(sources_in(g, computed.to_set(), n));
    let k = choose|k: int|
        0 <= k < g.nodes[n].inputs.len() && connects(g, m, #[trigger] g.nodes[n].inputs[k]);
    assert(computed.to_set().contains(m));
    assert(computed.contains(m));
}

/// In a pass, a node is computed after the nodes that feed it.
pub proof fn law_sources_first(g: GraphView, cache: &OutputsCache, j: int, k: int)
    requires
        cache_valid(g, cache),
        0 <= j < cache.computed().len(),
        0 <= k < cache.computed().len(),
        feeds(g, cache.computed()[j], cache.computed()[k]),
    ensures
        j < k,
{
}

/// A node none of whose inputs is connected is computed from exactly the
/// inline literals of its inputs.
pub proof fn law_leaf(g: GraphView, n: NodeId)
    requires
        g.well_formed(),
        g.nodes.contains_key(n),
        forall|k: int|
            0 <= k < g.nodes[n].inputs.len() ==> (
            #[trigger] g.inputs[g.nodes[n].inputs[k]]).connection is None,
    ensures
        node_outputs(g, n, Set::empty()) == Ok::<Seq<NodeParameters>, EvalError>(
            g.nodes[n].user_data.template.spec_compute(literals(g, n), g.nodes[n].outputs.len()),
        ),
{
    let active = Set::<NodeId>::empty().insert(n);
    lemma_leaf_inputs(g, n, active, g.nodes[n].inputs.len());
    assert(literals(g, n).take(g.nodes[n].inputs.len() as int) =~= literals(g, n));
}

/// The first inputs of a node without connections take their literals.
proof fn lemma_leaf_inputs(g: GraphView, n: NodeId, active: Set<NodeId>, count: nat)
    requires
        g.well_formed(),
        g.nodes.contains_key(n),
        count <= g.nodes[n].inputs.len(),
        forall|k: int|
            0 <= k < g.nodes[n].inputs.len() ==> (
            #[trigger] g.inputs[g.nodes[n].inputs[k]]).connection is None,
    ensures
        input_values(g, n, active, count) == Ok::<Seq<NodeParameters>, EvalError>(
            literals(g, n).take(count as int),
        ),
    decreases count,
{
    if count == 0 {
        assert(literals(g, n).take(0) =~= Seq::<NodeParameters>::empty());
    } else {
        lemma_leaf_inputs(g, n, active, (count - 1) as nat);
        let i = g.nodes[n].inputs[count - 1];
        assert(g.node_ok(n));
        assert(g.inputs.contains_key(i));
        assert(g.inputs[i].connection is None);
        assert(input_value(g, i, active) == Ok::<NodeParameters, EvalError>(g.inputs[i].value));
        assert(literals(g, n).take(count as int) =~= literals(g, n).take(count - 1).push(
            g.inputs[i].value,
        ));
    }
}

/// On a well-formed graph the evaluation of a node that exists fails in one
/// way only: by meeting a cycle.
pub proof fn law_only_cycles_fail(g: GraphView, n: NodeId, active: Set<NodeId>)
    requires
        g.well_formed(),
        g.nodes.contains_key(n),
    ensures
        node_outputs(g, n, active) is Ok || node_outputs(g, n, active) == Err::<
            Seq<NodeParameters>,
            EvalError,
        >(EvalError::CyclicDependency),
    decreases g.nodes.dom().difference(active).len(), 0nat, 0nat,
{
    if !active.contains(n) {
        lemma_fewer_remain(g.nodes.dom(), active, n);
        lemma_only_cycles_fail_inputs(g, n, active.insert(n), g.nodes[n].inputs.len());
    }
}

/// The same for the first inputs of a node.
proof fn lemma_only_cycles_fail_inputs(g: GraphView, n: NodeId, active: Set<NodeId>, count: nat)
    requires
        g.well_formed(),
        g.nodes.contains_key(n),
        count <= g.nodes[n].inputs.len(),
    ensures
        input_values(g, n, active, count) is Ok || input_values(g, n, active, count) == Err::<
            Seq<NodeParameters>,
            EvalError,
        >(EvalError::CyclicDependency),
    decreases g.nodes.dom().difference(active).len(), 1nat, count,
{
    if count > 0 {
        lemma_only_cycles_fail_inputs(g, n, active, (count - 1) as nat);
        let i = g.nodes[n].inputs[count - 1];
        assert(g.node_ok(n));
        assert(g.inputs.contains_key(i));
        assert(g.input_ok(i));
        match g.inputs[i].connection {
            None => {},
            Some(o) => {
                let m = g.outputs[o].node;
                assert(g.output_ok(o));
                law_only_cycles_fail(g, m, active);
                assert(input_value(g, i, active) == output_value(g, o, active));
            },
        }
    }
}

/// A node that is on a cycle of connections, or depends on one that is, is
/// never given a value: its evaluation fails with `CyclicDependency`.
pub proof fn law_cycle_is_reported(g: GraphView, n: NodeId)
    requires
        g.well_formed(),
        depends_on_cycle(g, n),
    ensures
        node_outputs(g, n, Set::empty()) == Err::<Seq<NodeParameters>, EvalError>(
            EvalError::CyclicDependency,
        ),
{
    let chain = choose|chain: Seq<NodeId>| #[trigger] lasso(g, chain) && chain[0] == n;
    assert(feeds(g, chain[1], chain[0]));
    law_only_cycles_fail(g, n, Set::empty());
    if node_outputs(g, n, Set::empty()) is Ok {
        let last = chain.len() - 1;
        lemma_chain_evaluates(g, chain, last);
        let j = choose|j: int| 0 <= j < chain.len() - 1 && #[trigger] chain[j] == chain.last();
        let before = chain.take(last);
        assert(before[j] == chain[last]);
        assert(before.to_set().contains(chain[last]));
        assert(false);
    }
}

/// Where evaluation reports a cycle there is one: the node is on a cycle of
/// connections or depends on a node that is.
pub proof fn law_reported_cycle_exists(g: GraphView, n: NodeId)
    requires
        g.well_formed(),
        node_outputs(g, n, Set::empty()) == Err::<Seq<NodeParameters>, EvalError>(
            EvalError::CyclicDependency,
        ),
    ensures
        depends_on_cycle(g, n),
{
    let trail = seq![n];
    assert(trail.drop_last() =~= Seq::<NodeId>::empty());
    assert(trail.drop_last().to_set() =~= Set::<NodeId>::empty());
    let chain = lemma_find_lasso(g, trail);
    assert(lasso(g, chain) && chain[0] == n);
}

/// Follows the failing inputs from the last node of `trail`, the path walked
/// so far, to the node at which the walk met itself.
proof fn lemma_find_lasso(g: GraphView, trail: Seq<NodeId>) -> (chain: Seq<NodeId>)
    requires
        g.well_formed(),
        trail.len() >= 1,
        is_chain(g, trail),
        node_outputs(g, trail.last(), trail.drop_last().to_set()) == Err::<
            Seq<NodeParameters>,
            EvalError,
        >(EvalError::CyclicDependency),
    ensures
        lasso(g, chain),
        chain[0] == trail[0],
    decreases g.nodes.dom().difference(trail.drop_last().to_set()).len(),
{
    let n = trail.last();
    let walked = trail.drop_last();
    let active = walked.to_set();
    if active.contains(n) {
        let j = choose|j: int| 0 <= j < walked.len() && walked[j] == n;
        assert(trail[j] == trail.last());
        trail
    } else {
        let inner = active.insert(n);
        lemma_fewer_remain(g.nodes.dom(), active, n);
        let count = g.nodes[n].inputs.len();
        let k = lemma_first_failure(g, n, inner, count);
        let i = g.nodes[n].inputs[k];
        assert(g.node_ok(n));
        assert(g.inputs.contains_key(i));
        assert(g.input_ok(i));
        let o = g.inputs[i].connection->0;
        let m = g.outputs[o].node;
        assert(g.output_ok(o));
        assert(input_value(g, i, inner) == output_value(g, o, inner));
        let longer = trail.push(m);
        assert(connects(g, m, g.nodes[n].inputs[k]));
        assert(feeds(g, m, n));
        assert(is_chain(g, longer)) by {
            assert forall|j: int| 0 < j < longer.len() implies feeds(
                g,
                #[trigger] longer[j],
                longer[j - 1],
            ) by {
                if j < trail.len() {
                    assert(feeds(g, trail[j], trail[j - 1]));
                }
            }
        }
        assert(longer.drop_last() =~= trail);
        assert(trail.to_set() =~= inner) by {
            assert(trail =~= walked.push(n));
            assert forall|x: NodeId| trail.to_set().contains(x) implies inner.contains(x) by {
                let at = choose|at: int| 0 <= at < trail.len() && trail[at] == x;
                if at < walked.len() {
                    assert(walked[at] == x);
                }
            }
            assert forall|x: NodeId| inner.contains(x) implies trail.to_set().contains(x) by {
                if x == n {
                    assert(trail[trail.len() - 1] == n);
                } else {
                    let at = choose|at: int| 0 <= at < walked.len() && walked[at] == x;
                    assert(trail[at] == x);
                }
            }
        }
        let chain = lemma_find_lasso(g, longer);
        assert(longer[0] == trail[0]);
        chain
    }
}

/// Where the first inputs of a node have no values, one of them is the first
/// to have none, and its error is the one reported.
proof fn lemma_first_failure(g: GraphView, n: NodeId, active: Set<NodeId>, count: nat) -> (k: int)
    requires
        g.nodes.dom().finite(),
        input_values(g, n, active, count) is Err,
    ensures
        0 <= k < count,
        input_value(g, g.nodes[n].inputs[k], active) is Err,
        input_value(g, g.nodes[n].inputs[k], active)->Err_0 == input_values(
            g,
            n,
            active,
            count,
        )->Err_0,
    decreases count,
{
    if input_values(g, n, active, (count - 1) as nat) is Err {
        lemma_first_failure(g, n, active, (count - 1) as nat)
    } else {
        count - 1
    }
}

/// Where the first node of a chain has a value, each node of the chain has
/// one on the path that leads to it along the chain.
proof fn lemma_chain_evaluates(g: GraphView, chain: Seq<NodeId>, j: int)
    requires
        g.well_formed(),
        is_chain(g, chain),
        0 <= j < chain.len(),
        node_outputs(g, chain[0], Set::empty()) is Ok,
    ensures
        node_outputs(g, chain[j], chain.take(j).to_set()) is Ok,
    decreases j,
{
    if j == 0 {
        assert(chain.take(0).to_set() =~= Set::<NodeId>::empty());
    } else {
        lemma_chain_evaluates(g, chain, j - 1);
        let n = chain[j - 1];
        let m = chain[j];
        let active = chain.take(j - 1).to_set();
        assert(feeds(g, m, n));
        let k = choose|k: int|
            0 <= k < g.nodes[n].inputs.len() && connects(g, m, #[trigger] g.nodes[n].inputs[k]);
        let i = g.nodes[n].inputs[k];
        let inner = active.insert(n);
        let longer = chain.take(j);
        let shorter = chain.take(j - 1);
        assert(longer.to_set() =~= inner) by {
            assert(longer =~= shorter.push(n));
            assert forall|x: NodeId| longer.to_set().contains(x) implies inner.contains(x) by {
                let at = choose|at: int| 0 <= at < longer.len() && longer[at] == x;
                if at < j - 1 {
                    assert(shorter[at] == x);
                }
            }
            assert forall|x: NodeId| inner.contains(x) implies longer.to_set().contains(x) by {
                if x == n {
                    assert(longer[j - 1] == n);
                } else {
                    let at = choose|at: int| 0 <= at < shorter.len() && shorter[at] == x;
                    assert(longer[at] == x);
                }
            }
        }
        lemma_each_input_has_value(g, n, inner, g.nodes[n].inputs.len(), k);
        assert(g.node_ok(n));
        assert(g.inputs.contains_key(i));
        let o = g.inputs[i].connection->0;
        assert(input_value(g, i, inner) == output_value(g, o, inner));
    }
}

/// Where the first inputs of a node have values, each of them has one.
proof fn lemma_each_input_has_value(
    g: GraphView,
    n: NodeId,
    active: Set<NodeId>,
    count: nat,
    k: int,
)
    requires
        g.nodes.dom().finite(),
        0 <= k < count,
        input_values(g, n, active, count) is Ok,
    ensures
        input_value(g, g.nodes[n].inputs[k], active) is Ok,
        input_values(g, n, active, count)->Ok_0.len() == count,
        input_values(g, n, active, count)->Ok_0[k] == input_value(
            g,
            g.nodes[n].inputs[k],
            active,
        )->Ok_0,
    decreases count,
{
    lemma_input_values_len(g, n, active, count);
    lemma_input_values_len(g, n, active, (count - 1) as nat);
    if k < count - 1 {
        lemma_each_input_has_value(g, n, active, (count - 1) as nat, k);
    }
}

/// The inline literal of a connected input is ignored: to change it changes
/// the value of no node.
pub proof fn law_literal_ignored(
    g: GraphView,
    i: InputId,
    value: NodeParameters,
    n: NodeId,
    active: Set<NodeId>,
)
    requires
        g.well_formed(),
        g.inputs.contains_key(i),
        g.inputs[i].connection is Some,
    ensures
        node_outputs(g.with_value(i, value), n, active) == node_outputs(g, n, active),
    decreases g.nodes.dom().difference(active).len(), 0nat, 0nat,
{
    let h = g.with_value(i, value);
    if g.nodes.contains_key(n) && !active.contains(n) {
        lemma_fewer_remain(g.nodes.dom(), active, n);
        lemma_literal_ignored_inputs(g, i, value, n, active.insert(n), g.nodes[n].inputs.len());
    }
}

/// The same for the first inputs of a node.
proof fn lemma_literal_ignored_inputs(
    g: GraphView,
    i: InputId,
    value: NodeParameters,
    n: NodeId,
    active: Set<NodeId>,
    count: nat,
)
    requires
        g.well_formed(),
        g.inputs.contains_key(i),
        g.inputs[i].connection is Some,
        g.nodes.contains_key(n),
        count <= g.nodes[n].inputs.len(),
    ensures
        input_values(g.with_value(i, value), n, active, count) == input_values(
            g,
            n,
            active,
            count,
        ),
    decreases g.nodes.dom().difference(active).len(), 1nat, count,
{
    let h = g.with_value(i, value);
    if count > 0 {
        lemma_literal_ignored_inputs(g, i, value, n, active, (count - 1) as nat);
        let j = g.nodes[n].inputs[count - 1];
        assert(g.node_ok(n));
        assert(g.inputs.contains_key(j));
        match g.inputs[j].connection {
            None => {
                assert(j != i);
            },
            Some(o) => {
                let m = g.outputs[o].node;
                law_literal_ignored(g, i, value, m, active);
                assert(output_value(h, o, active) == output_value(g, o, active));
                assert(input_value(h, j, active) == output_value(h, o, active));
                assert(input_value(g, j, active) == output_value(g, o, active));
            },
        }
        assert(input_value(h, j, active) == input_value(g, j, active));
    }
}

/// The value of an output does not depend on the inline literal of a
/// connected input, and an input without connection takes its literal.
pub proof fn law_literal_override(
    g: GraphView,
    i: InputId,
    value: NodeParameters,
    output: OutputId,
)
    requires
        g.well_formed(),
        g.inputs.contains_key(i),
    ensures
        g.inputs[i].connection is Some ==> output_value(g.with_value(i, value), output, Set::empty())
            == output_value(g, output, Set::empty()),
        input_value(g.with_connection(i, None).with_value(i, value), i, Set::empty()) == Ok::<
            NodeParameters,
            EvalError,
        >(value),
{
    if g.inputs[i].connection is Some {
        if g.outputs.contains_key(output) {
            law_literal_ignored(g, i, value, g.outputs[output].node, Set::empty());
        }
    }
}

/// When the evaluation of a node fails, and how: with `NotFound` exactly
/// where the node does not exist, with `CyclicDependency` exactly where it is
/// on a cycle of connections or depends on a node that is, and in no other
/// way.
pub proof fn law_node_failures(g: GraphView, n: NodeId)
    requires
        g.well_formed(),
    ensures
        match node_outputs(g, n, Set::empty()) {
            Ok(_) => g.nodes.contains_key(n) && !depends_on_cycle(g, n),
            Err(e) => if g.nodes.contains_key(n) {
                e == EvalError::CyclicDependency && depends_on_cycle(g, n)
            } else {
                e == EvalError::NotFound
            },
        },
{
    if g.nodes.contains_key(n) {
        law_only_cycles_fail(g, n, Set::empty());
        if node_outputs(g, n, Set::empty()) is Ok {
            if depends_on_cycle(g, n) {
                law_cycle_is_reported(g, n);
            }
        } else {
            law_reported_cycle_exists(g, n);
        }
    }
}

/// When the evaluation of an output fails, and how: with `NotFound` exactly
/// where the output does not exist, with `CyclicDependency` exactly where
/// its node is on a cycle of connections or depends on a node that is, and
/// in no other way. Where it succeeds, the value is the one that the node
/// computes for this output.
pub proof fn law_output_failures(g: GraphView, o: OutputId)
    requires
        g.well_formed(),
    ensures
        match output_value(g, o, Set::empty()) {
            Ok(v) => g.outputs.contains_key(o) && !depends_on_cycle(g, g.outputs[o].node),
            Err(e) => if g.outputs.contains_key(o) {
                e == EvalError::CyclicDependency && depends_on_cycle(g, g.outputs[o].node)
            } else {
                e == EvalError::NotFound
            },
        },
{
    if g.outputs.contains_key(o) {
        assert(g.output_ok(o));
        law_node_failures(g, g.outputs[o].node);
    }
}

/// In a graph without cycles every node has a value.
pub proof fn law_acyclic_evaluates(g: GraphView, n: NodeId)
    requires
        g.well_formed(),
        acyclic(g),
        g.nodes.contains_key(n),
    ensures
        node_outputs(g, n, Set::empty()) is Ok,
{
    law_only_cycles_fail(g, n, Set::empty());
    if node_outputs(g, n, Set::empty()) is Err {
        law_reported_cycle_exists(g, n);
        let chain = choose|chain: Seq<NodeId>| #[trigger] lasso(g, chain) && chain[0] == n;
        assert(lasso(g, chain));
    }
}

/// A graph without cycles stays without cycles when an input is connected
/// and the node of that input does not come to depend on a cycle: the test
/// that `connect` makes is enough.
pub proof fn law_connect_keeps_acyclic(g: GraphView, i: InputId, o: OutputId)
    requires
        g.well_formed(),
        acyclic(g),
        g.inputs.contains_key(i),
        g.inputs[i].connection is None,
        g.outputs.contains_key(o),
        !depends_on_cycle(g.with_connection(i, Some(o)), g.inputs[i].node),
    ensures
        acyclic(g.with_connection(i, Some(o))),
{
    let h = g.with_connection(i, Some(o));
    let n = g.inputs[i].node;
    assert forall|chain: Seq<NodeId>| !#[trigger] lasso(h, chain) by {
        if lasso(h, chain) {
            if is_chain(g, chain) {
                assert(lasso(g, chain));
            } else {
                let j = choose|j: int|
                    0 < j < chain.len() && !feeds(g, #[trigger] chain[j], chain[j - 1]);
                let x = chain[j - 1];
                assert(feeds(h, chain[j], x));
                let k = choose|k: int|
                    0 <= k < h.nodes[x].inputs.len() && connects(
                        h,
                        chain[j],
                        #[trigger] h.nodes[x].inputs[k],
                    );
                let port = h.nodes[x].inputs[k];
                if port != i {
                    assert(connects(g, chain[j], g.nodes[x].inputs[k]));
                    assert(false);
                }
                assert(g.node_ok(x));
                assert(x == n);
                let from_n = lemma_lasso_from(h, chain, j - 1);
                assert(lasso(h, from_n) && from_n[0] == n);
            }
        }
    }
}

/// From any node of a lasso but the last, a lasso starts.
proof fn lemma_lasso_from(g: GraphView, chain: Seq<NodeId>, p: int) -> (r: Seq<NodeId>)
    requires
        lasso(g, chain),
        0 <= p < chain.len() - 1,
    ensures
        lasso(g, r),
        r[0] == chain[p],
{
    let last = chain.len() - 1;
    let again = choose|j: int| 0 <= j < chain.len() - 1 && #[trigger] chain[j] == chain.last();
    let tail = chain.subrange(p, chain.len() as int);
    assert(is_chain(g, tail)) by {
        assert forall|j: int| 0 < j < tail.len() implies feeds(g, #[trigger] tail[j], tail[j - 1]) by {
            assert(tail[j] == chain[p + j]);
            assert(tail[j - 1] == chain[p + j - 1]);
            assert(feeds(g, chain[p + j], chain[p + j - 1]));
        }
    }
    if again >= p {
        assert(tail[again - p] == tail.last());
        tail
    } else {
        let back = chain.subrange(again + 1, p + 1);
        let round = tail + back;
        assert(round[0] == tail[0]);
        assert(round.last() == back.last());
        assert(back.last() == chain[p]);
        assert(is_chain(g, round)) by {
            assert forall|j: int| 0 < j < round.len() implies feeds(
                g,
                #[trigger] round[j],
                round[j - 1],
            ) by {
                if j < tail.len() {
                    assert(round[j] == tail[j]);
                    assert(round[j - 1] == tail[j - 1]);
                    assert(feeds(g, tail[j], tail[j - 1]));
                } else if j == tail.len() {
                    assert(round[j] == chain[again + 1]);
                    assert(round[j - 1] == chain[last]);
                    assert(feeds(g, chain[again + 1], chain[again + 1 - 1]));
                } else {
                    let at = again + 1 + (j - tail.len());
                    assert(round[j] == chain[at]);
                    assert(round[j - 1] == chain[at - 1]);
                    assert(feeds(g, chain[at], chain[at - 1]));
                }
            }
        }
        assert(round[0] == round.last());
        round
    }
}

/// The identity of a removed node is not handed out again: the next new node
/// gets another, and the removed identity stays unknown.
pub proof fn law_identity_not_reused(g: GraphView, n: NodeId, user_data: NodeData)
    requires
        g.well_formed(),
        g.nodes.contains_key(n),
    ensures
        g.without_node(n).next_node() != n,
        !g.without_node(n).with_node(g.without_node(n).next_node(), user_data).nodes.contains_key(
            n,
        ),
{
}

} // verus!

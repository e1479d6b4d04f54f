//! The evaluator: computes the outputs of a node by resolving its inputs on
//! demand, each node at most once in a pass, and reports a cycle instead of
//! following it.

use crate::cache::OutputsCache;
use crate::graph::{Graph, GraphView};
use crate::semantics::{
    closed_under_sources, connects, feeds, input_value, input_values, lemma_closed_holds_reached,
    lemma_fewer_remain, lemma_first_error_stays, lemma_node_any_path, lemma_reaches_self,
    lemma_reaches_step, lemma_ready_inputs_any_path, node_outputs, output_value, position,
    reaches, resolved, sources_in,
};
use crate::types::{EvalError, InputId, NodeId, NodeParameters, OutputId};
use vstd::prelude::*;

verus! {

/// The cache holds, for node `n`, the value of each of its outputs.
pub open spec fn node_cached(
    g: GraphView,
    values: Map<OutputId, NodeParameters>,
    n: NodeId,
) -> bool {
    &&& g.nodes.contains_key(n)
    &&& node_outputs(g, n, Set::empty()) is Ok
    &&& forall|k: int|
        0 <= k < g.nodes[n].outputs.len() ==> values.contains_key(#[trigger] g.nodes[n].outputs[k])
            && values[g.nodes[n].outputs[k]] == node_outputs(g, n, Set::empty())->Ok_0[k]
}

/// What holds of a cache throughout a pass over graph `g`: no node was
/// computed twice; what is held belongs to a computed node; of a computed
/// node every output is held, with its value; and whatever feeds a computed
/// node was computed too, and before it.
pub open spec fn cache_valid(g: GraphView, cache: &OutputsCache) -> bool {
    let values = cache@;
    let computed = cache.computed();
    &&& computed.no_duplicates()
    &&& sources_first(g, computed)
    &&& forall|o: OutputId| #[trigger]
        values.contains_key(o) ==> g.outputs.contains_key(o) && computed.contains(
            g.outputs[o].node,
        )
    &&& forall|n: NodeId| #[trigger]
        computed.contains(n) ==> node_cached(g, values, n) && sources_in(g, computed.to_set(), n)
}

/// Each node stands after the nodes of the record that feed it.
pub open spec fn sources_first(g: GraphView, computed: Seq<NodeId>) -> bool {
    forall|j: int, k: int|
        0 <= j < computed.len() && 0 <= k < computed.len() && #[trigger] feeds(
            g,
            computed[j],
            computed[k],
        ) ==> j < k
}

/// The later cache holds all that the earlier one held, unchanged, and its
/// record of computed nodes continues the earlier one.
pub open spec fn cache_extends(before: &OutputsCache, after: &OutputsCache) -> bool {
    &&& forall|o: OutputId| #[trigger]
        before@.contains_key(o) ==> after@.contains_key(o) && after@[o] == before@[o]
    &&& before.computed().is_prefix_of(after.computed())
}

/// The later cache holds what the earlier one held and no more.
pub open spec fn cache_unchanged(before: &OutputsCache, after: &OutputsCache) -> bool {
    after@ == before@ && after.computed() == before.computed()
}

/// What a pass computes for node `n`: beyond what was computed before, only
/// nodes that `n` depends on, and where the pass succeeded (`all`), all of
/// them.
pub open spec fn computed_for(
    g: GraphView,
    before: &OutputsCache,
    after: &OutputsCache,
    n: NodeId,
    all: bool,
) -> bool {
    &&& forall|x: NodeId| #[trigger]
        after.computed().contains(x) ==> before.computed().contains(x) || reaches(g, n, x)
    &&& all ==> forall|x: NodeId| #[trigger] reaches(g, n, x) ==> after.computed().contains(x)
}

/// A valid cache that holds a node holds all that the node depends on.
pub proof fn lemma_holds_reached(g: GraphView, cache: &OutputsCache, n: NodeId)
    requires
        cache_valid(g, cache),
        cache.computed().contains(n),
    ensures
        forall|x: NodeId| #[trigger] reaches(g, n, x) ==> cache.computed().contains(x),
{
    lemma_closed(g, cache);
    assert forall|x: NodeId| #[trigger] reaches(g, n, x) implies cache.computed().contains(x) by {
        lemma_closed_holds_reached(g, cache.computed().to_set(), n, x);
    }
}

/// The nodes that the marks show as under way.
pub open spec fn marked(marks: Seq<bool>) -> Set<NodeId> {
    Set::new(|n: NodeId| n.0 < marks.len() && marks[n.0 as int])
}

/// In a valid cache, what is held for an output is the value of that output,
/// on every path that avoids the computed nodes.
pub proof fn lemma_cached_value(g: GraphView, cache: &OutputsCache, o: OutputId, active: Set<NodeId>)
    requires
        g.well_formed(),
        cache_valid(g, cache),
        cache@.contains_key(o),
        active.disjoint(cache.computed().to_set()),
    ensures
        output_value(g, o, active) == Ok::<NodeParameters, EvalError>(cache@[o]),
{
    let done = cache.computed().to_set();
    let m = g.outputs[o].node;
    assert(cache.computed().contains(m));
    assert(node_cached(g, cache@, m));
    assert(g.output_ok(o));
    assert(g.node_ok(m));
    lemma_closed(g, cache);
    lemma_node_any_path(g, done, m, Set::empty(), active);
    assert(Set::<NodeId>::empty().union(active) =~= active);
    let k = position(g.nodes[m].outputs, o);
    assert(g.nodes[m].outputs[k] == o);
}

/// The computed nodes of a valid cache are closed under sources.
pub proof fn lemma_closed(g: GraphView, cache: &OutputsCache)
    requires
        cache_valid(g, cache),
    ensures
        closed_under_sources(g, cache.computed().to_set()),
        forall|m: NodeId| #[trigger]
            cache.computed().to_set().contains(m) ==> node_outputs(g, m, Set::empty()) is Ok,
{
    let done = cache.computed().to_set();
    assert forall|n: NodeId| #[trigger] done.contains(n) implies g.nodes.contains_key(n)
        && sources_in(g, done, n) by {
        assert(cache.computed().contains(n));
        assert(node_cached(g, cache@, n));
    }
    assert forall|m: NodeId| #[trigger] done.contains(m) implies node_outputs(
        g,
        m,
        Set::empty(),
    ) is Ok by {
        assert(cache.computed().contains(m));
        assert(node_cached(g, cache@, m));
    }
}

/// Computes node `n` and, before it, every node that feeds it and is not in
/// the cache yet. `marks` shows the nodes under way on the path to `n`.
#[verifier::loop_isolation(false)]
fn compute_node(graph: &Graph, n: NodeId, cache: &mut OutputsCache, marks: &mut Vec<bool>) -> (r:
    Result<(), EvalError>)
    requires
        graph.wf(),
        cache_valid(graph@, old(cache)),
        forall|m: NodeId| graph@.nodes.contains_key(m) ==> m.0 < old(marks).len(),
        marked(old(marks)@).disjoint(old(cache).computed().to_set()),
        !old(cache).computed().contains(n),
    ensures
        final(marks)@ == old(marks)@,
        cache_valid(graph@, final(cache)),
        cache_extends(old(cache), final(cache)),
        marked(old(marks)@).disjoint(final(cache).computed().to_set()),
        computed_for(graph@, old(cache), final(cache), n, false),
        match r {
            Ok(()) => final(cache).computed().contains(n),
            Err(e) => node_outputs(graph@, n, marked(old(marks)@)) == Err::<
                Seq<NodeParameters>,
                EvalError,
            >(e),
        },
    decreases graph@.nodes.dom().difference(marked(old(marks)@)).len(),
{
    let ghost g = graph@;
    let ghost marks0 = marks@;
    let ghost cache0 = *cache;
    let ghost active = marked(marks0);
    let node = match graph.get_node(n) {
        Ok(node) => node,
        Err(e) => { return Err(e); },
    };
    if marks[n.0] {
        return Err(EvalError::CyclicDependency);
    }
    marks.set(n.0, true);
    let ghost inner = active.insert(n);
    proof {
        assert(marked(marks@) =~= inner);
        lemma_fewer_remain(g.nodes.dom(), active, n);
        assert(cache0.computed().is_prefix_of(cache.computed()));
    }
    let mut values: Vec<NodeParameters> = Vec::new();
    let mut k: usize = 0;
    while k < node.inputs.len()
        invariant
            graph.wf(),
            g == graph@,
            g.well_formed(),
            g.nodes.contains_key(n),
            node@ == g.nodes[n],
            k <= node.inputs.len(),
            n.0 < marks0.len(),
            !marks0[n.0 as int],
            marks@ == marks0.update(n.0 as int, true),
            active == marked(marks0),
            inner == active.insert(n),
            marked(marks@) == inner,
            forall|m: NodeId| g.nodes.contains_key(m) ==> m.0 < marks.len(),
            cache_valid(g, cache),
            cache_extends(&cache0, cache),
            computed_for(g, &cache0, cache, n, false),
            inner.disjoint(cache.computed().to_set()),
            input_values(g, n, inner, k as nat) == Ok::<Seq<NodeParameters>, EvalError>(values@),
            forall|j: int|
                0 <= j < k ==> (#[trigger] g.inputs[g.nodes[n].inputs[j]].connection matches Some(
                    o,
                ) ==> cache.computed().contains(g.outputs[o].node)),
            g.nodes.dom().difference(inner).len() < g.nodes.dom().difference(active).len(),
        decreases node.inputs.len() - k,
    {
        let input_id = node.inputs[k];
        proof {
            assert(g.node_ok(n));
            assert(g.inputs.contains_key(g.nodes[n].inputs[k as int]));
            assert(g.input_ok(input_id));
        }
        let ghost before = values@;
        let value = match resolve_port(graph, input_id, cache) {
            Ok(v) => {
                proof {
                    if let Some(o) = g.inputs[input_id].connection {
                        lemma_cached_value(g, cache, o, inner);
                    }
                }
                v
            },
            Err(_) => {
                let o = match graph.connection_of(input_id) {
                    Some(o) => o,
                    None => {
                        assert(false);
                        return Err(EvalError::CacheNotPopulated);
                    },
                };
                let m = match graph.output(o) {
                    Ok(source) => source.node,
                    Err(e) => {
                        assert(false);
                        return Err(e);
                    },
                };
                proof {
                    assert(g.output_ok(o));
                    if cache.computed().contains(m) {
                        assert(node_cached(g, cache@, m));
                        let at = position(g.nodes[m].outputs, o);
                        assert(g.nodes[m].outputs[at] == o);
                        assert(false);
                    }
                }
                let ghost cache1 = *cache;
                let outcome = compute_node(graph, m, cache, marks);
                proof {
                    assert(connects(g, m, g.nodes[n].inputs[k as int]));
                    assert(feeds(g, m, n));
                    assert forall|x: NodeId| #[trigger]
                        cache.computed().contains(x) implies cache0.computed().contains(x)
                        || reaches(g, n, x) by {
                        if !cache1.computed().contains(x) {
                            lemma_reaches_step(g, n, m, x);
                        }
                    }
                    lemma_extends_twice(&cache0, &cache1, cache);
                }
                match outcome {
                    Ok(()) => {},
                    Err(e) => {
                        proof {
                            assert(output_value(g, o, inner) == Err::<NodeParameters, EvalError>(
                                e,
                            ));
                            assert(input_value(g, input_id, inner) == Err::<
                                NodeParameters,
                                EvalError,
                            >(e));
                            assert(input_values(g, n, inner, (k + 1) as nat) == Err::<
                                Seq<NodeParameters>,
                                EvalError,
                            >(e));
                            lemma_first_error_stays(
                                g,
                                n,
                                inner,
                                (k + 1) as nat,
                                g.nodes[n].inputs.len(),
                            );
                            lemma_disjoint_without(active, n, cache.computed().to_set());
                        }
                        marks.set(n.0, false);
                        assert(marks@ =~= marks0);
                        return Err(e);
                    },
                }
                proof {
                    assert forall|j: int| 0 <= j < k implies (
                    #[trigger] g.inputs[g.nodes[n].inputs[j]].connection matches Some(p)
                        ==> cache.computed().contains(g.outputs[p].node)) by {
                        if let Some(p) = g.inputs[g.nodes[n].inputs[j]].connection {
                            lemma_prefix_contains(
                                cache1.computed(),
                                cache.computed(),
                                g.outputs[p].node,
                            );
                        }
                    }
                    assert(node_cached(g, cache@, m));
                    let at = position(g.nodes[m].outputs, o);
                    assert(g.nodes[m].outputs[at] == o);
                    lemma_cached_value(g, cache, o, inner);
                }
                match resolve_port(graph, input_id, cache) {
                    Ok(v) => v,
                    Err(e) => {
                        assert(false);
                        return Err(e);
                    },
                }
            },
        };
        values.push(value);
        proof {
            assert(input_value(g, input_id, inner) == Ok::<NodeParameters, EvalError>(value));
            assert(input_values(g, n, inner, (k + 1) as nat) == Ok::<
                Seq<NodeParameters>,
                EvalError,
            >(before.push(value)));
            if let Some(o) = g.inputs[input_id].connection {
                assert(cache@.contains_key(o));
            }
        }
        k = k + 1;
    }
    let outs = node.user_data.template.compute(&values, node.outputs.len());
    let ghost cache2 = *cache;
    let ghost done = cache2.computed().to_set();
    proof {
        lemma_closed(g, &cache2);
        assert(sources_in(g, done, n)) by {
            assert forall|j: int| 0 <= j < g.nodes[n].inputs.len() implies (
            #[trigger] g.inputs[g.nodes[n].inputs[j]].connection matches Some(o) ==> done.contains(
                g.outputs[o].node,
            )) by {}
        }
        lemma_ready_inputs_any_path(
            g,
            done,
            n,
            inner,
            Set::<NodeId>::empty().insert(n),
            g.nodes[n].inputs.len(),
        );
        lemma_fewer_remain(g.nodes.dom(), Set::empty(), n);
        assert(node_outputs(g, n, Set::empty()) == Ok::<Seq<NodeParameters>, EvalError>(outs@));
        assert(inner.contains(n));
        assert(!cache2.computed().to_set().contains(n));
        assert(!cache2.computed().contains(n));
    }
    let mut j: usize = 0;
    while j < node.outputs.len()
        invariant
            g == graph@,
            g.well_formed(),
            g.nodes.contains_key(n),
            node@ == g.nodes[n],
            outs@.len() == node.outputs.len(),
            j <= node.outputs.len(),
            cache.computed() == cache2.computed(),
            cache_valid(g, &cache2),
            !cache2.computed().contains(n),
            forall|o: OutputId| #[trigger]
                cache2@.contains_key(o) ==> cache@.contains_key(o) && cache@[o] == cache2@[o],
            forall|o: OutputId| #[trigger]
                cache@.contains_key(o) ==> cache2@.contains_key(o) || g.nodes[n].outputs.subrange(
                    0,
                    j as int,
                ).contains(o),
            forall|i: int|
                0 <= i < j ==> cache@.contains_key(#[trigger] g.nodes[n].outputs[i])
                    && cache@[g.nodes[n].outputs[i]] == outs@[i],
        decreases node.outputs.len() - j,
    {
        let output_id = node.outputs[j];
        proof {
            assert(g.node_ok(n));
            assert(g.outputs.contains_key(g.nodes[n].outputs[j as int]));
            if cache2@.contains_key(output_id) {
                assert(cache2.computed().contains(g.outputs[output_id].node));
                assert(false);
            }
            assert forall|i: int| 0 <= i < j implies g.nodes[n].outputs[i] != output_id by {}
        }
        let ghost held = cache@;
        cache.insert(output_id, outs[j]);
        proof {
            let listed = g.nodes[n].outputs;
            if held.contains_key(output_id) {
                assert(!cache2@.contains_key(output_id));
                let seen = listed.subrange(0, j as int);
                let i = choose|i: int| 0 <= i < seen.len() && seen[i] == output_id;
                assert(listed[i] == output_id);
                assert(false);
            }
            assert forall|o: OutputId| #[trigger] cache@.contains_key(o) implies cache2@.contains_key(
                o,
            ) || listed.subrange(0, j + 1).contains(o) by {
                if o == output_id {
                    assert(listed.subrange(0, j + 1)[j as int] == o);
                } else if !cache2@.contains_key(o) {
                    let seen = listed.subrange(0, j as int);
                    let i = choose|i: int| 0 <= i < seen.len() && seen[i] == o;
                    assert(listed.subrange(0, j + 1)[i] == o);
                }
            }
        }
        j = j + 1;
    }
    cache.record(n);
    marks.set(n.0, false);
    proof {
        assert(marks@ =~= marks0);
        let computed = cache.computed();
        assert(computed == cache2.computed().push(n));
        assert(computed.no_duplicates());
        assert(sources_first(g, computed)) by {
            let earlier = cache2.computed();
            assert forall|j: int, k: int|
                0 <= j < computed.len() && 0 <= k < computed.len() && #[trigger] feeds(
                    g,
                    computed[j],
                    computed[k],
                ) implies j < k by {
                let source = computed[j];
                let fed = computed[k];
                let at = choose|at: int|
                    0 <= at < g.nodes[fed].inputs.len() && connects(
                        g,
                        source,
                        #[trigger] g.nodes[fed].inputs[at],
                    );
                assert(g.inputs[g.nodes[fed].inputs[at]].connection is Some);
                if k < earlier.len() {
                    assert(earlier.contains(fed));
                    assert(sources_in(g, done, fed));
                    assert(done.contains(source));
                    if j == earlier.len() {
                        assert(false);
                    } else {
                        assert(feeds(g, earlier[j], earlier[k]));
                    }
                } else {
                    assert(done.contains(source));
                }
            }
        }
        assert forall|m: NodeId| #[trigger] computed.contains(m) implies node_cached(g, cache@, m)
            && sources_in(g, computed.to_set(), m) by {
            if m == n {
                assert(node_cached(g, cache@, n));
                assert(sources_in(g, computed.to_set(), n)) by {
                    assert forall|i: int| 0 <= i < g.nodes[n].inputs.len() implies (
                    #[trigger] g.inputs[g.nodes[n].inputs[i]].connection matches Some(o)
                        ==> computed.to_set().contains(g.outputs[o].node)) by {
                        if let Some(o) = g.inputs[g.nodes[n].inputs[i]].connection {
                            assert(done.contains(g.outputs[o].node));
                            lemma_prefix_contains(cache2.computed(), computed, g.outputs[o].node);
                        }
                    }
                }
            } else {
                lemma_push_contains(cache2.computed(), n, m);
                assert(cache2.computed().contains(m));
                assert(node_cached(g, cache2@, m));
                assert(sources_in(g, done, m));
                assert(sources_in(g, computed.to_set(), m)) by {
                    assert forall|i: int| 0 <= i < g.nodes[m].inputs.len() implies (
                    #[trigger] g.inputs[g.nodes[m].inputs[i]].connection matches Some(o)
                        ==> computed.to_set().contains(g.outputs[o].node)) by {
                        if let Some(o) = g.inputs[g.nodes[m].inputs[i]].connection {
                            assert(done.contains(g.outputs[o].node));
                            lemma_prefix_contains(cache2.computed(), computed, g.outputs[o].node);
                        }
                    }
                }
            }
        }
        assert forall|o: OutputId| #[trigger] cache@.contains_key(o) implies g.outputs.contains_key(
            o,
        ) && computed.contains(g.outputs[o].node) by {
            if cache2@.contains_key(o) {
                lemma_prefix_contains(cache2.computed(), computed, g.outputs[o].node);
            } else {
                let listed = g.nodes[n].outputs;
                let seen = listed.subrange(0, listed.len() as int);
                let i = choose|i: int| 0 <= i < seen.len() && seen[i] == o;
                assert(listed[i] == o);
                assert(g.node_ok(n));
                assert(computed[computed.len() - 1] == n);
            }
        }
        assert(computed[computed.len() - 1] == n);
        lemma_extends_twice(&cache0, &cache2, cache);
        assert forall|x: NodeId| #[trigger] computed.contains(x) implies cache0.computed().contains(
            x,
        ) || reaches(g, n, x) by {
            if x == n {
                lemma_reaches_self(g, n);
            } else {
                lemma_push_contains(cache2.computed(), n, x);
            }
        }
        assert forall|m: NodeId| active.contains(m) implies !computed.to_set().contains(m) by {
            if computed.contains(m) {
                lemma_push_contains(cache2.computed(), n, m);
                assert(inner.contains(m));
            }
        }
    }
    Ok(())
}

/// Marks for a pass that has no node under way yet.
fn fresh_marks(bound: usize) -> (marks: Vec<bool>)
    ensures
        marks.len() == bound,
        marked(marks@) == Set::<NodeId>::empty(),
{
    let mut marks: Vec<bool> = Vec::new();
    let mut k: usize = 0;
    while k < bound
        invariant
            k <= bound,
            marks.len() == k,
            forall|j: int| 0 <= j < k ==> !marks[j],
        decreases bound - k,
    {
        marks.push(false);
        k = k + 1;
    }
    assert(marked(marks@) =~= Set::<NodeId>::empty());
    marks
}

/// Evaluates node `node_id`: resolves each of its inputs in declared order,
/// computing the nodes that feed them where the cache does not hold their
/// outputs yet, then computes the node and returns the values of its outputs
/// in declared order. A node that the pass has computed already is not
/// computed again: its values are read from the cache.
///
/// Fails with `NotFound` where the node does not exist and with
/// `CyclicDependency` where the node depends on itself.
pub fn evaluate_node(graph: &Graph, node_id: NodeId, outputs_cache: &mut OutputsCache) -> (r: Result<
    Vec<NodeParameters>,
    EvalError,
>)
    requires
        graph.wf(),
        cache_valid(graph@, old(outputs_cache)),
    ensures
        cache_valid(graph@, final(outputs_cache)),
        cache_extends(old(outputs_cache), final(outputs_cache)),
        match r {
            Ok(values) => node_outputs(graph@, node_id, Set::empty()) == Ok::<
                Seq<NodeParameters>,
                EvalError,
            >(values@) && final(outputs_cache).computed().contains(node_id),
            Err(e) => node_outputs(graph@, node_id, Set::empty()) == Err::<
                Seq<NodeParameters>,
                EvalError,
            >(e),
        },
        computed_for(graph@, old(outputs_cache), final(outputs_cache), node_id, r is Ok),
        old(outputs_cache).computed().contains(node_id) ==> cache_unchanged(
            old(outputs_cache),
            final(outputs_cache),
        ),
{
    let ghost g = graph@;
    if !contains_node(outputs_cache.computed_nodes(), node_id) {
        let mut marks = fresh_marks(graph.node_bound());
        match compute_node(graph, node_id, outputs_cache, &mut marks) {
            Ok(()) => {},
            Err(e) => { return Err(e); },
        }
    }
    let node = match graph.get_node(node_id) {
        Ok(node) => node,
        Err(e) => {
            proof {
                assert(node_cached(g, outputs_cache@, node_id));
            }
            return Err(e);
        },
    };
    proof {
        assert(node_cached(g, outputs_cache@, node_id));
    }
    proof {
        lemma_holds_reached(g, outputs_cache, node_id);
    }
    let ghost wanted = node_outputs(g, node_id, Set::empty())->Ok_0;
    let mut values: Vec<NodeParameters> = Vec::new();
    let mut k: usize = 0;
    while k < node.outputs.len()
        invariant
            g == graph@,
            g.nodes.contains_key(node_id),
            node@ == g.nodes[node_id],
            node_cached(g, outputs_cache@, node_id),
            computed_for(g, old(outputs_cache), outputs_cache, node_id, true),
            wanted == node_outputs(g, node_id, Set::empty())->Ok_0,
            k <= node.outputs.len(),
            values@ == wanted.take(k as int),
            wanted.len() == node.outputs.len(),
        decreases node.outputs.len() - k,
    {
        let value = match outputs_cache.get(node.outputs[k]) {
            Some(value) => value,
            None => {
                proof {
                    assert(outputs_cache@.contains_key(g.nodes[node_id].outputs[k as int]));
                }
                return Err(EvalError::CacheNotPopulated);
            },
        };
        values.push(value);
        proof {
            assert(outputs_cache@.contains_key(g.nodes[node_id].outputs[k as int]));
            assert(values@ =~= wanted.take(k + 1));
        }
        k = k + 1;
    }
    assert(values@ =~= wanted);
    Ok(values)
}

/// Whether `node` is among `nodes`.
fn contains_node(nodes: &Vec<NodeId>, node: NodeId) -> (r: bool)
    ensures
        r == nodes@.contains(node),
{
    let mut k: usize = 0;
    while k < nodes.len()
        invariant
            k <= nodes.len(),
            forall|j: int| 0 <= j < k ==> nodes@[j] != node,
        decreases nodes.len() - k,
    {
        if nodes[k].0 == node.0 {
            return true;
        }
        k = k + 1;
    }
    false
}

/// Evaluates output `output`. A value that the cache holds is returned as it
/// is, with nothing computed; otherwise the node that owns the output is
/// evaluated, which fills the cache, and the value is read from there.
///
/// Fails with `NotFound` where the output does not exist and with
/// `CyclicDependency` where its node depends on itself.
pub fn evaluate_output(graph: &Graph, output: OutputId, outputs_cache: &mut OutputsCache) -> (r:
    Result<NodeParameters, EvalError>)
    requires
        graph.wf(),
        cache_valid(graph@, old(outputs_cache)),
    ensures
        cache_valid(graph@, final(outputs_cache)),
        cache_extends(old(outputs_cache), final(outputs_cache)),
        r == output_value(graph@, output, Set::empty()),
        old(outputs_cache)@.contains_key(output) || !graph@.outputs.contains_key(output)
            ==> cache_unchanged(old(outputs_cache), final(outputs_cache)),
        graph@.outputs.contains_key(output) ==> computed_for(
            graph@,
            old(outputs_cache),
            final(outputs_cache),
            graph@.outputs[output].node,
            r is Ok,
        ),
{
    let ghost g = graph@;
    match outputs_cache.get(output) {
        Some(value) => {
            proof {
                lemma_cached_value(g, outputs_cache, output, Set::empty());
                lemma_holds_reached(g, outputs_cache, g.outputs[output].node);
            }
            return Ok(value);
        },
        None => {},
    }
    let node_id = match graph.output(output) {
        Ok(port) => port.node,
        Err(e) => { return Err(e); },
    };
    proof {
        assert(g.output_ok(output));
        if outputs_cache.computed().contains(node_id) {
            assert(node_cached(g, outputs_cache@, node_id));
            let at = position(g.nodes[node_id].outputs, output);
            assert(g.nodes[node_id].outputs[at] == output);
            assert(false);
        }
    }
    let mut marks = fresh_marks(graph.node_bound());
    match compute_node(graph, node_id, outputs_cache, &mut marks) {
        Ok(()) => {},
        Err(e) => { return Err(e); },
    }
    proof {
        assert(node_cached(g, outputs_cache@, node_id));
        let at = position(g.nodes[node_id].outputs, output);
        assert(g.nodes[node_id].outputs[at] == output);
        lemma_cached_value(g, outputs_cache, output, Set::empty());
        lemma_holds_reached(g, outputs_cache, node_id);
    }
    match outputs_cache.get(output) {
        Some(value) => Ok(value),
        None => Err(EvalError::CacheNotPopulated),
    }
}

/// Evaluates output `output` in a pass of its own, with a cache that lives
/// for this call only.
pub fn evaluate(graph: &Graph, output: OutputId) -> (r: Result<NodeParameters, EvalError>)
    requires
        graph.wf(),
    ensures
        r == output_value(graph@, output, Set::empty()),
{
    let mut cache = OutputsCache::new();
    evaluate_output(graph, output, &mut cache)
}

/// Evaluates the output of node `node_id` that bears `name`, as
/// `evaluate_output` does.
///
/// Fails with `NotFound` where the node does not exist, with `UnknownPort`
/// where it has no output of that name, and as `evaluate_output` does.
pub fn evaluate_named_output(
    graph: &Graph,
    node_id: NodeId,
    name: &str,
    outputs_cache: &mut OutputsCache,
) -> (r: Result<NodeParameters, EvalError>)
    requires
        graph.wf(),
        cache_valid(graph@, old(outputs_cache)),
    ensures
        cache_valid(graph@, final(outputs_cache)),
        cache_extends(old(outputs_cache), final(outputs_cache)),
        computed_for(graph@, old(outputs_cache), final(outputs_cache), node_id, r is Ok),
        !graph@.nodes.contains_key(node_id) ==> r == Err::<NodeParameters, EvalError>(
            EvalError::NotFound,
        ),
        graph@.nodes.contains_key(node_id) && (forall|o: OutputId|
            !graph@.named_output(node_id, name@, o)) ==> r == Err::<NodeParameters, EvalError>(
            EvalError::UnknownPort,
        ),
        forall|o: OutputId|
            graph@.named_output(node_id, name@, o) ==> r == output_value(graph@, o, Set::empty()),
{
    let ghost g = graph@;
    let output = match graph.get_output(node_id, name) {
        Ok(output) => output,
        Err(e) => { return Err(e); },
    };
    proof {
        lemma_named_output_unique(g, node_id, name@, output);
        assert(g.node_ok(node_id));
    }
    evaluate_output(graph, output, outputs_cache)
}

/// Evaluates the input of node `node_id` that bears `param_name`: the value of
/// the output connected to it, computed first where the cache does not hold
/// it, and the inline literal where nothing is connected.
///
/// Fails with `NotFound` where the node does not exist, with `UnknownPort`
/// where it has no input of that name, and as `evaluate_output` does.
pub fn evaluate_input(
    graph: &Graph,
    node_id: NodeId,
    param_name: &str,
    outputs_cache: &mut OutputsCache,
) -> (r: Result<NodeParameters, EvalError>)
    requires
        graph.wf(),
        cache_valid(graph@, old(outputs_cache)),
    ensures
        cache_valid(graph@, final(outputs_cache)),
        cache_extends(old(outputs_cache), final(outputs_cache)),
        !graph@.nodes.contains_key(node_id) ==> r == Err::<NodeParameters, EvalError>(
            EvalError::NotFound,
        ),
        graph@.nodes.contains_key(node_id) && (forall|i: InputId|
            !graph@.named_input(node_id, param_name@, i)) ==> r == Err::<NodeParameters, EvalError>(
            EvalError::UnknownPort,
        ),
        forall|i: InputId|
            graph@.named_input(node_id, param_name@, i) ==> r == input_value(
                graph@,
                i,
                Set::empty(),
            ),
        forall|i: InputId|
            graph@.named_input(node_id, param_name@, i) ==> (
            #[trigger] graph@.inputs[i].connection matches Some(o) ==> computed_for(
                graph@,
                old(outputs_cache),
                final(outputs_cache),
                graph@.outputs[o].node,
                r is Ok,
            )),
        (forall|i: InputId|
            graph@.named_input(node_id, param_name@, i) ==> (
            #[trigger] graph@.inputs[i].connection) is None) ==> cache_unchanged(
            old(outputs_cache),
            final(outputs_cache),
        ),
{
    let ghost g = graph@;
    let input_id = match graph.get_input(node_id, param_name) {
        Ok(input_id) => input_id,
        Err(e) => { return Err(e); },
    };
    proof {
        lemma_named_input_unique(g, node_id, param_name@, input_id);
        assert(g.node_ok(node_id));
        assert(g.input_ok(input_id));
    }
    let connection = match graph.input(input_id) {
        Ok(port) => {
            match port.connection {
                None => { return Ok(port.value); },
                Some(o) => o,
            }
        },
        Err(e) => { return Err(e); },
    };
    evaluate_output(graph, connection, outputs_cache)
}

/// Resolves input `input` against the cache, computing nothing: the held
/// value of the output connected to it, or the inline literal where nothing
/// is connected.
///
/// Fails with `NotFound` where the input does not exist and with
/// `CacheNotPopulated` where the connected output has no value in the cache.
pub fn resolve_port(graph: &Graph, input: InputId, cache: &OutputsCache) -> (r: Result<
    NodeParameters,
    EvalError,
>)
    requires
        graph.wf(),
    ensures
        r == if graph@.inputs.contains_key(input) {
            resolved(graph@, cache@, input)
        } else {
            Err(EvalError::NotFound)
        },
{
    let port = match graph.input(input) {
        Ok(port) => port,
        Err(e) => { return Err(e); },
    };
    match port.connection {
        None => Ok(port.value),
        Some(o) => match cache.get(o) {
            Some(value) => Ok(value),
            None => Err(EvalError::CacheNotPopulated),
        },
    }
}

/// Resolves the input of node `node_id` that bears `port_name` against the
/// cache, as `resolve_port` does.
///
/// Fails with `NotFound` where the node does not exist, with `UnknownPort`
/// where it has no input of that name, and with `CacheNotPopulated` where the
/// connected output has no value in the cache.
pub fn resolve_input(graph: &Graph, node_id: NodeId, port_name: &str, cache: &OutputsCache) -> (r:
    Result<NodeParameters, EvalError>)
    requires
        graph.wf(),
    ensures
        !graph@.nodes.contains_key(node_id) ==> r == Err::<NodeParameters, EvalError>(
            EvalError::NotFound,
        ),
        graph@.nodes.contains_key(node_id) && (forall|i: InputId|
            !graph@.named_input(node_id, port_name@, i)) ==> r == Err::<NodeParameters, EvalError>(
            EvalError::UnknownPort,
        ),
        forall|i: InputId|
            graph@.named_input(node_id, port_name@, i) ==> r == resolved(graph@, cache@, i),
{
    let ghost g = graph@;
    let input_id = match graph.get_input(node_id, port_name) {
        Ok(input_id) => input_id,
        Err(e) => { return Err(e); },
    };
    proof {
        lemma_named_input_unique(g, node_id, port_name@, input_id);
        assert(g.node_ok(node_id));
    }
    resolve_port(graph, input_id, cache)
}

/// A node has at most one input of a given name.
pub proof fn lemma_named_input_unique(g: GraphView, n: NodeId, name: Seq<char>, i: InputId)
    requires
        g.well_formed(),
        g.named_input(n, name, i),
    ensures
        forall|j: InputId| g.named_input(n, name, j) ==> j == i,
{
    assert forall|j: InputId| g.named_input(n, name, j) implies j == i by {
        assert(g.node_ok(n));
        let inputs = g.nodes[n].inputs;
        let a = choose|a: int| 0 <= a < inputs.len() && inputs[a] == i;
        let b = choose|b: int| 0 <= b < inputs.len() && inputs[b] == j;
        if a < b {
            assert(g.inputs[inputs[a]].name != g.inputs[inputs[b]].name);
        } else if b < a {
            assert(g.inputs[inputs[b]].name != g.inputs[inputs[a]].name);
        }
    }
}

/// A node has at most one output of a given name.
pub proof fn lemma_named_output_unique(g: GraphView, n: NodeId, name: Seq<char>, o: OutputId)
    requires
        g.well_formed(),
        g.named_output(n, name, o),
    ensures
        forall|j: OutputId| g.named_output(n, name, j) ==> j == o,
{
    assert forall|j: OutputId| g.named_output(n, name, j) implies j == o by {
        assert(g.node_ok(n));
        let outputs = g.nodes[n].outputs;
        let a = choose|a: int| 0 <= a < outputs.len() && outputs[a] == o;
        let b = choose|b: int| 0 <= b < outputs.len() && outputs[b] == j;
        if a < b {
            assert(g.outputs[outputs[a]].name != g.outputs[outputs[b]].name);
        } else if b < a {
            assert(g.outputs[outputs[b]].name != g.outputs[outputs[a]].name);
        }
    }
}

/// What the earlier of three caches held, the last holds too.
proof fn lemma_extends_twice(first: &OutputsCache, second: &OutputsCache, third: &OutputsCache)
    requires
        cache_extends(first, second),
        cache_extends(second, third) || (third.computed() == second.computed().push(
            third.computed().last(),
        ) && third.computed().len() > 0 && forall|o: OutputId| #[trigger]
            second@.contains_key(o) ==> third@.contains_key(o) && third@[o] == second@[o]),
    ensures
        cache_extends(first, third),
{
    let a = first.computed();
    let b = second.computed();
    let c = third.computed();
    assert(b.is_prefix_of(c)) by {
        if !cache_extends(second, third) {
            assert(c.subrange(0, b.len() as int) =~= b);
        }
    }
    assert(a.is_prefix_of(c)) by {
        assert(c.subrange(0, a.len() as int) =~= b.subrange(0, a.len() as int));
    }
}

/// What a record holds, every record that continues it holds.
proof fn lemma_prefix_contains(short: Seq<NodeId>, long: Seq<NodeId>, n: NodeId)
    requires
        short.is_prefix_of(long) || (long.len() > 0 && long.drop_last() == short),
        short.contains(n),
    ensures
        long.contains(n),
        long.to_set().contains(n),
{
    let k = choose|k: int| 0 <= k < short.len() && short[k] == n;
    if short.is_prefix_of(long) {
        assert(long.subrange(0, short.len() as int)[k] == n);
    }
    assert(long[k] == n);
}

/// What a record with one more node holds is that node or was held before.
proof fn lemma_push_contains(short: Seq<NodeId>, last: NodeId, n: NodeId)
    requires
        short.push(last).contains(n),
        n != last,
    ensures
        short.contains(n),
{
    let long = short.push(last);
    let k = choose|k: int| 0 <= k < long.len() && long[k] == n;
    assert(short[k] == n);
}

/// Nodes under way stay apart from the computed ones when one of them is
/// taken off the path.
proof fn lemma_disjoint_without(active: Set<NodeId>, n: NodeId, done: Set<NodeId>)
    requires
        active.insert(n).disjoint(done),
    ensures
        active.disjoint(done),
{
    assert forall|m: NodeId| active.contains(m) implies !done.contains(m) by {
        assert(active.insert(n).contains(m));
    }
}

} // verus!

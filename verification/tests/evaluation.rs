use rbd_graph::cache::OutputsCache;
use rbd_graph::edit::connect;
use rbd_graph::evaluator::{
    evaluate, evaluate_input, evaluate_named_output, evaluate_node, evaluate_output,
    resolve_input, resolve_port,
};
use rbd_graph::graph::Graph;
use rbd_graph::state::MyResponse;
use rbd_graph::types::{
    EditError, EvalError, GraphState, InputId, NodeData, NodeId, NodeParameters, NodeTemplate,
    NodeType, OutputId,
};

fn params(shape: u64, scale: u64, time_steps: u32) -> NodeParameters {
    NodeParameters { shape, scale, time_steps }
}

fn component() -> NodeData {
    NodeData { template: NodeTemplate::CreateComponent }
}

struct Block {
    node: NodeId,
    a: InputId,
    b: InputId,
    out: OutputId,
}

fn block(graph: &mut Graph, a: NodeParameters, b: NodeParameters) -> Block {
    let mut state = GraphState::default();
    let node = graph.add_node(component());
    NodeTemplate::CreateComponent.build_node(graph, &mut state, node).unwrap();
    let block = Block {
        node,
        a: graph.get_input(node, "A").unwrap(),
        b: graph.get_input(node, "B").unwrap(),
        out: graph.get_output(node, "out").unwrap(),
    };
    graph.set_input_value(block.a, a).unwrap();
    graph.set_input_value(block.b, b).unwrap();
    block
}

fn times(nodes: &Vec<NodeId>, node: NodeId) -> usize {
    nodes.iter().filter(|n| **n == node).count()
}

#[test]
fn a_leaf_is_computed_from_its_literals() {
    let mut graph = Graph::new();
    let leaf = block(&mut graph, params(300, 50_000, 900), params(800, 40_000, 365));
    assert_eq!(evaluate(&graph, leaf.out), Ok(params(300, 40_000, 365)));
    let mut cache = OutputsCache::new();
    assert_eq!(evaluate_node(&graph, leaf.node, &mut cache), Ok(vec![params(300, 40_000, 365)]));
    assert_eq!(cache.computed_nodes(), &vec![leaf.node]);
}

#[test]
fn a_fresh_component_evaluates_to_the_default() {
    let mut graph = Graph::new();
    let leaf = block(&mut graph, NodeParameters::default(), NodeParameters::default());
    assert_eq!(evaluate(&graph, leaf.out), Ok(params(500, 200_000, 730)));
}

#[test]
fn a_value_travels_along_a_connection() {
    let mut graph = Graph::new();
    let v = params(123, 456, 78);
    let a = graph.add_node(component());
    graph.add_input_param(a, "seed".to_string(), NodeType::Component, v).unwrap();
    let a_out = graph.add_output_param(a, "out".to_string(), NodeType::Component).unwrap();
    let b = graph.add_node(component());
    let b_in = graph
        .add_input_param(b, "in".to_string(), NodeType::Component, NodeParameters::default())
        .unwrap();
    let b_result = graph.add_output_param(b, "result".to_string(), NodeType::Component).unwrap();
    graph.add_connection(a_out, b_in).unwrap();

    let mut cache = OutputsCache::new();
    assert_eq!(evaluate_output(&graph, b_result, &mut cache), Ok(v));
    assert_eq!(cache.len(), 2);
    assert_eq!(cache.get(a_out), Some(v));
    assert_eq!(cache.get(b_result), Some(v));
    assert!(cache.contains(a_out));
    assert!(cache.contains(b_result));
    assert_eq!(cache.computed_nodes(), &vec![a, b]);
    assert_eq!(evaluate(&graph, b_result), Ok(v));
}

#[test]
fn a_shared_source_is_computed_once() {
    let mut graph = Graph::new();
    let a = block(&mut graph, params(10, 20, 30), params(40, 5, 60));
    let b = block(&mut graph, NodeParameters::default(), params(7, 1_000, 1_000));
    let c = block(&mut graph, NodeParameters::default(), params(1_000, 1_000, 9));
    let d = block(&mut graph, NodeParameters::default(), NodeParameters::default());
    graph.add_connection(a.out, b.a).unwrap();
    graph.add_connection(a.out, c.a).unwrap();
    graph.add_connection(b.out, d.a).unwrap();
    graph.add_connection(c.out, d.b).unwrap();

    let mut cache = OutputsCache::new();
    assert_eq!(evaluate_output(&graph, d.out, &mut cache), Ok(params(7, 5, 9)));
    let computed = cache.computed_nodes();
    assert_eq!(times(computed, a.node), 1);
    assert_eq!(times(computed, b.node), 1);
    assert_eq!(times(computed, c.node), 1);
    assert_eq!(times(computed, d.node), 1);
    assert_eq!(computed, &vec![a.node, b.node, c.node, d.node]);
    assert_eq!(cache.len(), 4);
    assert_eq!(cache.get(a.out), Some(params(10, 5, 30)));
    assert_eq!(cache.get(b.out), Some(params(7, 5, 30)));
    assert_eq!(cache.get(c.out), Some(params(10, 5, 9)));
}

#[test]
fn a_cached_output_is_returned_without_computing() {
    let mut graph = Graph::new();
    let a = block(&mut graph, params(1, 2, 3), params(4, 5, 6));
    let b = block(&mut graph, NodeParameters::default(), params(9, 9, 9));
    graph.add_connection(a.out, b.a).unwrap();
    let mut cache = OutputsCache::new();
    assert_eq!(evaluate_output(&graph, a.out, &mut cache), Ok(params(1, 2, 3)));
    assert_eq!(cache.computed_nodes(), &vec![a.node]);
    assert_eq!(evaluate_output(&graph, a.out, &mut cache), Ok(params(1, 2, 3)));
    assert_eq!(cache.computed_nodes(), &vec![a.node]);
    assert_eq!(evaluate_node(&graph, a.node, &mut cache), Ok(vec![params(1, 2, 3)]));
    assert_eq!(cache.computed_nodes(), &vec![a.node]);
    assert_eq!(evaluate_output(&graph, b.out, &mut cache), Ok(params(1, 2, 3)));
    assert_eq!(cache.computed_nodes(), &vec![a.node, b.node]);
    assert_eq!(cache.len(), 2);
}

#[test]
fn a_two_node_cycle_is_reported() {
    let mut graph = Graph::new();
    let a = block(&mut graph, NodeParameters::default(), NodeParameters::default());
    let b = block(&mut graph, NodeParameters::default(), NodeParameters::default());
    graph.add_connection(b.out, a.a).unwrap();
    graph.add_connection(a.out, b.a).unwrap();
    assert_eq!(evaluate(&graph, a.out), Err(EvalError::CyclicDependency));
    assert_eq!(evaluate(&graph, b.out), Err(EvalError::CyclicDependency));
    let mut cache = OutputsCache::new();
    assert_eq!(evaluate_node(&graph, a.node, &mut cache), Err(EvalError::CyclicDependency));
    assert_eq!(cache.len(), 0);
    assert!(cache.computed_nodes().is_empty());
}

#[test]
fn a_node_that_feeds_itself_is_reported() {
    let mut graph = Graph::new();
    let a = block(&mut graph, NodeParameters::default(), NodeParameters::default());
    graph.add_connection(a.out, a.b).unwrap();
    assert_eq!(evaluate(&graph, a.out), Err(EvalError::CyclicDependency));
}

#[test]
fn a_cycle_upstream_is_reported_and_what_was_computed_stays() {
    let mut graph = Graph::new();
    let leaf = block(&mut graph, params(1, 1, 1), params(2, 2, 2));
    let a = block(&mut graph, NodeParameters::default(), NodeParameters::default());
    let b = block(&mut graph, NodeParameters::default(), NodeParameters::default());
    let top = block(&mut graph, NodeParameters::default(), NodeParameters::default());
    graph.add_connection(b.out, a.a).unwrap();
    graph.add_connection(a.out, b.a).unwrap();
    graph.add_connection(leaf.out, top.a).unwrap();
    graph.add_connection(a.out, top.b).unwrap();
    let mut cache = OutputsCache::new();
    assert_eq!(evaluate_output(&graph, top.out, &mut cache), Err(EvalError::CyclicDependency));
    assert_eq!(cache.get(leaf.out), Some(params(1, 1, 1)));
    assert_eq!(cache.computed_nodes(), &vec![leaf.node]);
    assert_eq!(evaluate_output(&graph, leaf.out, &mut cache), Ok(params(1, 1, 1)));
}

#[test]
fn a_long_chain_is_no_cycle() {
    let mut graph = Graph::new();
    let mut previous = block(&mut graph, params(5, 6, 7), params(8, 9, 10));
    let first = previous.node;
    for _ in 0..200 {
        let next = block(&mut graph, NodeParameters::default(), params(100, 100, 100));
        graph.add_connection(previous.out, next.a).unwrap();
        previous = next;
    }
    let mut cache = OutputsCache::new();
    assert_eq!(evaluate_output(&graph, previous.out, &mut cache), Ok(params(5, 6, 7)));
    assert_eq!(cache.computed_nodes().len(), 201);
    assert_eq!(cache.computed_nodes()[0], first);
}

#[test]
fn unknown_identities_are_not_found() {
    let mut graph = Graph::new();
    let leaf = block(&mut graph, NodeParameters::default(), NodeParameters::default());
    assert_eq!(evaluate(&graph, OutputId(99)), Err(EvalError::NotFound));
    let mut cache = OutputsCache::new();
    assert_eq!(evaluate_node(&graph, NodeId(99), &mut cache), Err(EvalError::NotFound));
    assert_eq!(evaluate_input(&graph, NodeId(99), "A", &mut cache), Err(EvalError::NotFound));
    assert_eq!(evaluate_input(&graph, leaf.node, "C", &mut cache), Err(EvalError::UnknownPort));
    assert_eq!(resolve_input(&graph, NodeId(99), "A", &cache), Err(EvalError::NotFound));
    assert_eq!(resolve_input(&graph, leaf.node, "out", &cache), Err(EvalError::UnknownPort));
    assert_eq!(cache.len(), 0);
}

#[test]
fn a_literal_is_ignored_while_its_input_is_connected() {
    let mut graph = Graph::new();
    let up = block(&mut graph, params(50, 60, 70), params(55, 65, 75));
    let down = block(&mut graph, params(1, 1, 1), params(1_000, 1_000, 1_000));
    graph.add_connection(up.out, down.a).unwrap();
    assert_eq!(evaluate(&graph, down.out), Ok(params(50, 60, 70)));
    graph.set_input_value(down.a, params(2, 2, 2)).unwrap();
    assert_eq!(evaluate(&graph, down.out), Ok(params(50, 60, 70)));
    graph.set_input_value(down.a, params(0, 0, 0)).unwrap();
    assert_eq!(evaluate(&graph, down.out), Ok(params(50, 60, 70)));
    assert_eq!(graph.remove_connection(down.a), Some(up.out));
    assert_eq!(evaluate(&graph, down.out), Ok(params(0, 0, 0)));
    graph.set_input_value(down.a, params(3, 2_000, 4)).unwrap();
    assert_eq!(evaluate(&graph, down.out), Ok(params(3, 1_000, 4)));
}

#[test]
fn evaluation_is_repeatable() {
    let mut graph = Graph::new();
    let up = block(&mut graph, params(50, 60, 70), params(55, 65, 75));
    let down = block(&mut graph, NodeParameters::default(), params(51, 1_000, 1_000));
    graph.add_connection(up.out, down.a).unwrap();
    let first = evaluate(&graph, down.out);
    let second = evaluate(&graph, down.out);
    assert_eq!(first, Ok(params(50, 60, 70)));
    assert_eq!(first, second);
    let mut warm = OutputsCache::new();
    evaluate_output(&graph, up.out, &mut warm).unwrap();
    assert_eq!(evaluate_output(&graph, down.out, &mut warm), first);
}

#[test]
fn evaluate_input_computes_what_feeds_it() {
    let mut graph = Graph::new();
    let up = block(&mut graph, params(50, 60, 70), params(55, 65, 75));
    let down = block(&mut graph, NodeParameters::default(), params(51, 1_000, 1_000));
    graph.add_connection(up.out, down.a).unwrap();
    let mut cache = OutputsCache::new();
    assert_eq!(evaluate_input(&graph, down.node, "B", &mut cache), Ok(params(51, 1_000, 1_000)));
    assert_eq!(cache.len(), 0);
    assert_eq!(evaluate_input(&graph, down.node, "A", &mut cache), Ok(params(50, 60, 70)));
    assert_eq!(cache.computed_nodes(), &vec![up.node]);
    assert_eq!(cache.get(up.out), Some(params(50, 60, 70)));
}

#[test]
fn resolve_input_reads_and_never_computes() {
    let mut graph = Graph::new();
    let up = block(&mut graph, params(50, 60, 70), params(55, 65, 75));
    let down = block(&mut graph, params(9, 9, 9), params(51, 1_000, 1_000));
    graph.add_connection(up.out, down.a).unwrap();
    let mut cache = OutputsCache::new();
    assert_eq!(resolve_input(&graph, down.node, "B", &cache), Ok(params(51, 1_000, 1_000)));
    assert_eq!(resolve_input(&graph, down.node, "A", &cache), Err(EvalError::CacheNotPopulated));
    assert_eq!(cache.len(), 0);
    evaluate_output(&graph, up.out, &mut cache).unwrap();
    assert_eq!(resolve_input(&graph, down.node, "A", &cache), Ok(params(50, 60, 70)));
}

#[test]
fn the_cache_keeps_the_first_value_of_an_output() {
    let mut cache = OutputsCache::new();
    assert_eq!(cache.get(OutputId(3)), None);
    assert!(!cache.contains(OutputId(3)));
    assert!(cache.insert(OutputId(3), params(1, 2, 3)));
    assert!(!cache.insert(OutputId(3), params(4, 5, 6)));
    assert_eq!(cache.get(OutputId(3)), Some(params(1, 2, 3)));
    assert!(cache.insert(OutputId(4), params(4, 5, 6)));
    assert_eq!(cache.len(), 2);
    assert!(cache.computed_nodes().is_empty());
}

#[test]
fn the_active_node_is_evaluated_or_given_up() {
    let mut graph = Graph::new();
    let leaf = block(&mut graph, params(3, 4, 5), params(6, 1, 8));
    let mut state = GraphState::default();
    assert_eq!(state.evaluate_active(&graph), None);
    state.respond(MyResponse::SetActiveNode(leaf.node));
    assert_eq!(state.evaluate_active(&graph), Some(Ok(vec![params(3, 1, 5)])));
    assert_eq!(state.active_node, Some(leaf.node));
    graph.add_connection(leaf.out, leaf.a).unwrap();
    assert_eq!(state.evaluate_active(&graph), Some(Err(EvalError::CyclicDependency)));
    assert_eq!(state.active_node, Some(leaf.node));
    state.respond(MyResponse::SetActiveNode(NodeId(31)));
    assert_eq!(state.evaluate_active(&graph), None);
    assert_eq!(state.active_node, None);
}

#[test]
fn connect_refuses_to_close_a_cycle() {
    let mut graph = Graph::new();
    let a = block(&mut graph, params(1, 2, 3), params(4, 5, 6));
    let b = block(&mut graph, NodeParameters::default(), NodeParameters::default());
    let c = block(&mut graph, NodeParameters::default(), NodeParameters::default());
    assert_eq!(connect(&mut graph, a.out, b.a), Ok(()));
    assert_eq!(connect(&mut graph, b.out, c.a), Ok(()));
    assert_eq!(connect(&mut graph, c.out, a.a), Err(EditError::Cycle));
    assert_eq!(graph.connection_of(a.a), None);
    assert_eq!(connect(&mut graph, a.out, a.b), Err(EditError::Cycle));
    assert_eq!(graph.connection_of(a.b), None);
    assert_eq!(connect(&mut graph, a.out, c.b), Ok(()));
    assert_eq!(evaluate(&graph, c.out), Ok(params(1, 2, 3)));
}

#[test]
fn connect_refuses_what_add_connection_refuses() {
    let mut graph = Graph::new();
    let a = block(&mut graph, params(1, 2, 3), params(4, 5, 6));
    let b = block(&mut graph, NodeParameters::default(), NodeParameters::default());
    assert_eq!(connect(&mut graph, OutputId(70), b.a), Err(EditError::NotFound));
    assert_eq!(connect(&mut graph, a.out, InputId(70)), Err(EditError::NotFound));
    assert_eq!(connect(&mut graph, a.out, b.a), Ok(()));
    assert_eq!(connect(&mut graph, a.out, b.a), Err(EditError::InputConnected));
    assert_eq!(connect(&mut graph, b.out, b.a), Err(EditError::InputConnected));
    assert_eq!(graph.connection_of(b.a), Some(a.out));
}

#[test]
fn a_removed_source_leaves_the_literal_in_charge() {
    let mut graph = Graph::new();
    let up = block(&mut graph, params(1, 2, 3), params(4, 5, 6));
    let down = block(&mut graph, params(7, 8, 9), params(10, 11, 12));
    graph.add_connection(up.out, down.a).unwrap();
    assert_eq!(evaluate(&graph, down.out), Ok(params(1, 2, 3)));
    graph.remove_node(up.node).unwrap();
    assert_eq!(evaluate(&graph, down.out), Ok(params(7, 8, 9)));
    assert_eq!(evaluate(&graph, up.out), Err(EvalError::NotFound));
}

#[test]
fn resolve_port_reads_by_identity() {
    let mut graph = Graph::new();
    let up = block(&mut graph, params(50, 60, 70), params(55, 65, 75));
    let down = block(&mut graph, params(9, 9, 9), params(51, 1_000, 1_000));
    graph.add_connection(up.out, down.a).unwrap();
    let mut cache = OutputsCache::new();
    assert_eq!(resolve_port(&graph, down.b, &cache), Ok(params(51, 1_000, 1_000)));
    assert_eq!(resolve_port(&graph, down.a, &cache), Err(EvalError::CacheNotPopulated));
    assert_eq!(resolve_port(&graph, InputId(1_000), &cache), Err(EvalError::NotFound));
    evaluate_output(&graph, up.out, &mut cache).unwrap();
    assert_eq!(resolve_port(&graph, down.a, &cache), Ok(params(50, 60, 70)));
}

#[test]
fn every_output_of_a_node_is_computed_together() {
    let mut graph = Graph::new();
    let node = graph.add_node(component());
    graph.add_input_param(node, "x".to_string(), NodeType::Component, params(8, 7, 6)).unwrap();
    graph.add_input_param(node, "y".to_string(), NodeType::Component, params(5, 9, 9)).unwrap();
    let first = graph.add_output_param(node, "first".to_string(), NodeType::Component).unwrap();
    let second = graph.add_output_param(node, "second".to_string(), NodeType::Component).unwrap();
    let mut cache = OutputsCache::new();
    assert_eq!(evaluate_output(&graph, second, &mut cache), Ok(params(5, 7, 6)));
    assert_eq!(cache.get(first), Some(params(5, 7, 6)));
    assert_eq!(cache.len(), 2);
    assert_eq!(cache.computed_nodes(), &vec![node]);
    assert_eq!(
        evaluate_node(&graph, node, &mut cache),
        Ok(vec![params(5, 7, 6), params(5, 7, 6)])
    );
    assert_eq!(cache.computed_nodes(), &vec![node]);
}

#[test]
fn a_node_without_outputs_is_computed_once_too() {
    let mut graph = Graph::new();
    let up = block(&mut graph, params(1, 2, 3), params(4, 5, 6));
    let sink = graph.add_node(component());
    let input = graph
        .add_input_param(sink, "in".to_string(), NodeType::Component, NodeParameters::default())
        .unwrap();
    graph.add_connection(up.out, input).unwrap();
    let mut cache = OutputsCache::new();
    assert_eq!(evaluate_node(&graph, sink, &mut cache), Ok(vec![]));
    assert_eq!(cache.computed_nodes(), &vec![up.node, sink]);
    assert_eq!(evaluate_node(&graph, sink, &mut cache), Ok(vec![]));
    assert_eq!(cache.computed_nodes(), &vec![up.node, sink]);
    assert_eq!(cache.len(), 1);
}

#[test]
fn a_bare_node_evaluates_to_nothing() {
    let mut graph = Graph::new();
    let node = graph.add_node(component());
    let mut cache = OutputsCache::new();
    assert_eq!(evaluate_node(&graph, node, &mut cache), Ok(vec![]));
    assert_eq!(cache.len(), 0);
    assert_eq!(cache.computed_nodes(), &vec![node]);
}

#[test]
fn an_output_is_chosen_by_name() {
    let mut graph = Graph::new();
    let up = block(&mut graph, params(50, 60, 70), params(55, 65, 75));
    let down = block(&mut graph, NodeParameters::default(), params(51, 1_000, 1_000));
    graph.add_connection(up.out, down.a).unwrap();
    let mut cache = OutputsCache::new();
    assert_eq!(evaluate_named_output(&graph, down.node, "out", &mut cache), Ok(params(50, 60, 70)));
    assert_eq!(cache.computed_nodes(), &vec![up.node, down.node]);
    assert_eq!(
        evaluate_named_output(&graph, down.node, "result", &mut cache),
        Err(EvalError::UnknownPort)
    );
    assert_eq!(
        evaluate_named_output(&graph, down.node, "A", &mut cache),
        Err(EvalError::UnknownPort)
    );
    assert_eq!(
        evaluate_named_output(&graph, NodeId(44), "out", &mut cache),
        Err(EvalError::NotFound)
    );
    assert_eq!(cache.computed_nodes(), &vec![up.node, down.node]);
}

fn plain_value(graph: &Graph, node: NodeId) -> NodeParameters {
    let inputs = graph.get_node(node).unwrap().inputs.clone();
    let mut values = Vec::new();
    for input in inputs {
        let port = graph.input(input).unwrap();
        values.push(match port.connection {
            Some(output) => plain_value(graph, graph.output(output).unwrap().node),
            None => port.value,
        });
    }
    values.into_iter().reduce(|a, b| a.weakest(b)).unwrap_or_default()
}

#[test]
fn a_pass_agrees_with_plain_recursion() {
    let mut graph = Graph::new();
    let mut seed: u64 = 0x2545_f491_4f6c_dd1d;
    let mut next = move || {
        seed = seed.wrapping_mul(6364136223846793005).wrapping_add(1442695040888963407);
        seed >> 33
    };
    let mut blocks: Vec<Block> = Vec::new();
    for index in 0..40 {
        let a = params(next() % 1_000, next() % 1_000, (next() % 1_000) as u32);
        let b = params(next() % 1_000, next() % 1_000, (next() % 1_000) as u32);
        let made = block(&mut graph, a, b);
        if index > 0 {
            if next() % 3 != 0 {
                let source = (next() as usize) % index;
                graph.add_connection(blocks[source].out, made.a).unwrap();
            }
            if next() % 3 != 0 {
                let source = (next() as usize) % index;
                graph.add_connection(blocks[source].out, made.b).unwrap();
            }
        }
        blocks.push(made);
    }
    let mut cache = OutputsCache::new();
    for made in blocks.iter().rev() {
        let expected = plain_value(&graph, made.node);
        assert_eq!(evaluate_output(&graph, made.out, &mut cache), Ok(expected));
        assert_eq!(evaluate(&graph, made.out), Ok(expected));
    }
    let computed = cache.computed_nodes();
    assert_eq!(computed.len(), blocks.len());
    for made in &blocks {
        assert_eq!(times(computed, made.node), 1);
        assert_eq!(cache.get(made.out), Some(plain_value(&graph, made.node)));
    }
    for (place, node) in computed.iter().enumerate() {
        for input in &graph.get_node(*node).unwrap().inputs {
            if let Some(output) = graph.connection_of(*input) {
                let source = graph.output(output).unwrap().node;
                let at = computed.iter().position(|n| *n == source).unwrap();
                assert!(at < place);
            }
        }
    }
}

#[test]
fn a_cleared_cache_starts_a_new_pass() {
    let mut graph = Graph::new();
    let leaf = block(&mut graph, params(1, 2, 3), params(4, 5, 6));
    let mut cache = OutputsCache::new();
    assert_eq!(evaluate_output(&graph, leaf.out, &mut cache), Ok(params(1, 2, 3)));
    graph.set_input_value(leaf.a, params(9, 9, 9)).unwrap();
    cache.clear();
    assert_eq!(cache.len(), 0);
    assert!(cache.computed_nodes().is_empty());
    assert_eq!(evaluate_output(&graph, leaf.out, &mut cache), Ok(params(4, 5, 6)));
    assert_eq!(cache.computed_nodes(), &vec![leaf.node]);
}

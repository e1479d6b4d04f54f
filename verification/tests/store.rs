use rbd_graph::graph::Graph;
use rbd_graph::types::{
    EditError, EvalError, GraphState, InputId, NodeData, NodeId, NodeParameters, NodeTemplate,
    NodeType, OutputId,
};

fn params(shape: u64, scale: u64, time_steps: u32) -> NodeParameters {
    NodeParameters { shape, scale, time_steps }
}

fn component() -> NodeData {
    NodeData { template: NodeTemplate::CreateComponent }
}

fn built_component(graph: &mut Graph) -> NodeId {
    let mut state = GraphState::default();
    let node = graph.add_node(component());
    assert_eq!(NodeTemplate::CreateComponent.build_node(graph, &mut state, node), Ok(()));
    node
}

#[test]
fn new_graph_knows_no_identity() {
    let graph = Graph::new();
    assert!(matches!(graph.get_node(NodeId(0)), Err(EvalError::NotFound)));
    assert!(matches!(graph.input(InputId(0)), Err(EvalError::NotFound)));
    assert!(matches!(graph.output(OutputId(0)), Err(EvalError::NotFound)));
    assert_eq!(graph.connection_of(InputId(0)), None);
    assert_eq!(graph.node_bound(), 0);
}

#[test]
fn add_node_hands_out_fresh_identities() {
    let mut graph = Graph::new();
    let a = graph.add_node(component());
    let b = graph.add_node(component());
    assert_ne!(a, b);
    let node = graph.get_node(a).unwrap();
    assert_eq!(node.id, a);
    assert!(node.inputs.is_empty());
    assert!(node.outputs.is_empty());
    assert_eq!(node.user_data, component());
    assert!(matches!(graph.get_node(NodeId(7)), Err(EvalError::NotFound)));
}

#[test]
fn ports_are_found_by_name() {
    let mut graph = Graph::new();
    let node = graph.add_node(component());
    let first = graph
        .add_input_param(node, "in".to_string(), NodeType::Component, params(1, 2, 3))
        .unwrap();
    let second = graph
        .add_input_param(node, "other".to_string(), NodeType::Component, params(4, 5, 6))
        .unwrap();
    let out = graph.add_output_param(node, "result".to_string(), NodeType::Component).unwrap();
    assert_ne!(first, second);
    assert_eq!(graph.get_input(node, "in"), Ok(first));
    assert_eq!(graph.get_input(node, "other"), Ok(second));
    assert_eq!(graph.get_output(node, "result"), Ok(out));
    assert_eq!(graph.get_node(node).unwrap().inputs, vec![first, second]);
    assert_eq!(graph.get_node(node).unwrap().outputs, vec![out]);
    let port = graph.input(second).unwrap();
    assert_eq!(port.id, second);
    assert_eq!(port.node, node);
    assert_eq!(port.name, "other");
    assert_eq!(port.typ, NodeType::Component);
    assert_eq!(port.value, params(4, 5, 6));
    assert_eq!(port.connection, None);
    let port = graph.output(out).unwrap();
    assert_eq!(port.id, out);
    assert_eq!(port.node, node);
    assert_eq!(port.name, "result");
}

#[test]
fn unknown_names_and_nodes_are_told_apart() {
    let mut graph = Graph::new();
    let node = built_component(&mut graph);
    assert_eq!(graph.get_input(node, "C"), Err(EvalError::UnknownPort));
    assert_eq!(graph.get_input(node, "out"), Err(EvalError::UnknownPort));
    assert_eq!(graph.get_output(node, "A"), Err(EvalError::UnknownPort));
    assert_eq!(graph.get_input(NodeId(5), "A"), Err(EvalError::NotFound));
    assert_eq!(graph.get_output(NodeId(5), "out"), Err(EvalError::NotFound));
}

#[test]
fn a_name_is_taken_once_per_direction() {
    let mut graph = Graph::new();
    let node = graph.add_node(component());
    let other = graph.add_node(component());
    let first = graph
        .add_input_param(node, "x".to_string(), NodeType::Component, params(1, 1, 1))
        .unwrap();
    assert_eq!(
        graph.add_input_param(node, "x".to_string(), NodeType::Component, params(2, 2, 2)),
        Err(EditError::DuplicatePort)
    );
    assert_eq!(graph.get_node(node).unwrap().inputs, vec![first]);
    assert_eq!(graph.input(first).unwrap().value, params(1, 1, 1));
    assert!(graph.add_output_param(node, "x".to_string(), NodeType::Component).is_ok());
    assert_eq!(
        graph.add_output_param(node, "x".to_string(), NodeType::Component),
        Err(EditError::DuplicatePort)
    );
    assert!(graph
        .add_input_param(other, "x".to_string(), NodeType::Component, params(3, 3, 3))
        .is_ok());
    assert_eq!(
        graph.add_input_param(NodeId(9), "x".to_string(), NodeType::Component, params(1, 1, 1)),
        Err(EditError::NotFound)
    );
    assert_eq!(
        graph.add_output_param(NodeId(9), "y".to_string(), NodeType::Component),
        Err(EditError::NotFound)
    );
}

#[test]
fn build_node_declares_the_component_ports() {
    let mut graph = Graph::new();
    let node = built_component(&mut graph);
    let a = graph.get_input(node, "A").unwrap();
    let b = graph.get_input(node, "B").unwrap();
    let out = graph.get_output(node, "out").unwrap();
    assert_eq!(graph.get_node(node).unwrap().inputs, vec![a, b]);
    assert_eq!(graph.get_node(node).unwrap().outputs, vec![out]);
    assert_eq!(graph.input(a).unwrap().value, params(500, 200_000, 730));
    assert_eq!(graph.input(b).unwrap().value, params(500, 200_000, 730));
    assert_eq!(graph.input(a).unwrap().typ, NodeType::Component);
    assert_eq!(graph.output(out).unwrap().typ, NodeType::Component);
    assert_eq!(graph.connection_of(a), None);
}

#[test]
fn build_node_refuses_what_it_cannot_complete() {
    let mut graph = Graph::new();
    let mut state = GraphState { active_node: Some(NodeId(3)) };
    assert_eq!(
        NodeTemplate::CreateComponent.build_node(&mut graph, &mut state, NodeId(0)),
        Err(EditError::NotFound)
    );
    let node = built_component(&mut graph);
    assert_eq!(
        NodeTemplate::CreateComponent.build_node(&mut graph, &mut state, node),
        Err(EditError::DuplicatePort)
    );
    assert_eq!(graph.get_node(node).unwrap().inputs.len(), 2);
    assert_eq!(graph.get_node(node).unwrap().outputs.len(), 1);
    let partial = graph.add_node(component());
    graph.add_output_param(partial, "out".to_string(), NodeType::Component).unwrap();
    assert_eq!(
        NodeTemplate::CreateComponent.build_node(&mut graph, &mut state, partial),
        Err(EditError::DuplicatePort)
    );
    assert!(graph.get_node(partial).unwrap().inputs.is_empty());
    assert_eq!(state, GraphState { active_node: Some(NodeId(3)) });
}

#[test]
fn a_connection_is_recorded_on_its_input() {
    let mut graph = Graph::new();
    let up = built_component(&mut graph);
    let down = built_component(&mut graph);
    let out = graph.get_output(up, "out").unwrap();
    let a = graph.get_input(down, "A").unwrap();
    let b = graph.get_input(down, "B").unwrap();
    assert_eq!(graph.add_connection(out, a), Ok(()));
    assert_eq!(graph.connection_of(a), Some(out));
    assert_eq!(graph.connection_of(b), None);
    assert_eq!(graph.add_connection(out, b), Ok(()));
    assert_eq!(graph.connection_of(b), Some(out));
}

#[test]
fn a_second_connection_into_an_input_is_refused() {
    let mut graph = Graph::new();
    let first = built_component(&mut graph);
    let second = built_component(&mut graph);
    let down = built_component(&mut graph);
    let out_first = graph.get_output(first, "out").unwrap();
    let out_second = graph.get_output(second, "out").unwrap();
    let a = graph.get_input(down, "A").unwrap();
    assert_eq!(graph.add_connection(out_first, a), Ok(()));
    assert_eq!(graph.add_connection(out_second, a), Err(EditError::InputConnected));
    assert_eq!(graph.connection_of(a), Some(out_first));
    assert_eq!(graph.add_connection(out_first, a), Err(EditError::InputConnected));
    assert_eq!(graph.connection_of(a), Some(out_first));
}

#[test]
fn a_connection_needs_both_ports() {
    let mut graph = Graph::new();
    let node = built_component(&mut graph);
    let out = graph.get_output(node, "out").unwrap();
    let a = graph.get_input(node, "A").unwrap();
    assert_eq!(graph.add_connection(OutputId(40), a), Err(EditError::NotFound));
    assert_eq!(graph.add_connection(out, InputId(40)), Err(EditError::NotFound));
    assert_eq!(graph.connection_of(a), None);
}

#[test]
fn remove_connection_returns_what_was_connected() {
    let mut graph = Graph::new();
    let up = built_component(&mut graph);
    let down = built_component(&mut graph);
    let out = graph.get_output(up, "out").unwrap();
    let a = graph.get_input(down, "A").unwrap();
    assert_eq!(graph.remove_connection(a), None);
    graph.add_connection(out, a).unwrap();
    assert_eq!(graph.remove_connection(a), Some(out));
    assert_eq!(graph.connection_of(a), None);
    assert_eq!(graph.remove_connection(a), None);
    assert_eq!(graph.remove_connection(InputId(77)), None);
    assert_eq!(graph.add_connection(out, a), Ok(()));
}

#[test]
fn set_input_value_replaces_the_literal() {
    let mut graph = Graph::new();
    let node = built_component(&mut graph);
    let a = graph.get_input(node, "A").unwrap();
    let b = graph.get_input(node, "B").unwrap();
    assert_eq!(graph.set_input_value(a, params(9, 8, 7)), Ok(()));
    assert_eq!(graph.input(a).unwrap().value, params(9, 8, 7));
    assert_eq!(graph.input(b).unwrap().value, NodeParameters::default());
    assert_eq!(graph.set_input_value(InputId(12), params(1, 1, 1)), Err(EditError::NotFound));
}

#[test]
fn remove_node_takes_its_ports_and_outgoing_connections() {
    let mut graph = Graph::new();
    let up = built_component(&mut graph);
    let mid = built_component(&mut graph);
    let down = built_component(&mut graph);
    let up_out = graph.get_output(up, "out").unwrap();
    let mid_a = graph.get_input(mid, "A").unwrap();
    let mid_b = graph.get_input(mid, "B").unwrap();
    let mid_out = graph.get_output(mid, "out").unwrap();
    let down_a = graph.get_input(down, "A").unwrap();
    let down_b = graph.get_input(down, "B").unwrap();
    graph.add_connection(up_out, mid_a).unwrap();
    graph.add_connection(mid_out, down_a).unwrap();
    graph.add_connection(up_out, down_b).unwrap();
    graph.set_input_value(down_a, params(1, 2, 3)).unwrap();

    assert_eq!(graph.remove_node(mid), Ok(()));
    assert!(matches!(graph.get_node(mid), Err(EvalError::NotFound)));
    assert!(matches!(graph.input(mid_a), Err(EvalError::NotFound)));
    assert!(matches!(graph.input(mid_b), Err(EvalError::NotFound)));
    assert!(matches!(graph.output(mid_out), Err(EvalError::NotFound)));
    assert_eq!(graph.get_input(mid, "A"), Err(EvalError::NotFound));
    assert_eq!(graph.connection_of(down_a), None);
    assert_eq!(graph.input(down_a).unwrap().value, params(1, 2, 3));
    assert_eq!(graph.connection_of(down_b), Some(up_out));
    assert!(graph.get_node(up).is_ok());
    assert!(graph.output(up_out).is_ok());
    assert_eq!(graph.get_node(down).unwrap().inputs, vec![down_a, down_b]);
    assert_eq!(graph.remove_node(mid), Err(EditError::NotFound));
    assert_eq!(graph.remove_node(NodeId(50)), Err(EditError::NotFound));
    assert_eq!(graph.add_connection(mid_out, down_a), Err(EditError::NotFound));
}

#[test]
fn a_removed_identity_is_not_handed_out_again() {
    let mut graph = Graph::new();
    let first = built_component(&mut graph);
    let first_out = graph.get_output(first, "out").unwrap();
    graph.remove_node(first).unwrap();
    let second = built_component(&mut graph);
    assert_ne!(second, first);
    assert_ne!(graph.get_output(second, "out").unwrap(), first_out);
    assert!(matches!(graph.get_node(first), Err(EvalError::NotFound)));
    assert_eq!(graph.node_bound(), 2);
}

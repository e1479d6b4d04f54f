//! The graph store: nodes, their ports and the connections between ports,
//! all addressed by identity.

use crate::types::{
    EditError, EvalError, InputId, NodeData, NodeId, NodeParameters, NodeType, OutputId,
};
use vstd::prelude::*;

verus! {

/// A node as the store holds it.
pub struct Node {
    pub id: NodeId,
    pub inputs: Vec<InputId>,
    pub outputs: Vec<OutputId>,
    pub user_data: NodeData,
}

/// An input port as the store holds it. `value` is the inline literal, which
/// counts only while `connection` is `None`.
pub struct InputPort {
    pub id: InputId,
    pub node: NodeId,
    pub name: String,
    pub typ: NodeType,
    pub value: NodeParameters,
    pub connection: Option<OutputId>,
}

/// An output port as the store holds it.
pub struct OutputPort {
    pub id: OutputId,
    pub node: NodeId,
    pub name: String,
    pub typ: NodeType,
}

/// The mathematical content of a node.
pub ghost struct NodeView {
    pub user_data: NodeData,
    pub inputs: Seq<InputId>,
    pub outputs: Seq<OutputId>,
}

/// The mathematical content of an input port.
pub ghost struct InputView {
    pub node: NodeId,
    pub name: Seq<char>,
    pub typ: NodeType,
    pub value: NodeParameters,
    pub connection: Option<OutputId>,
}

/// The mathematical content of an output port.
pub ghost struct OutputView {
    pub node: NodeId,
    pub name: Seq<char>,
    pub typ: NodeType,
}

/// The mathematical content of a graph: what exists, by identity, and how
/// many identities of each sort have been handed out. Identities are handed
/// out in order and never twice.
pub ghost struct GraphView {
    pub nodes: Map<NodeId, NodeView>,
    pub inputs: Map<InputId, InputView>,
    pub outputs: Map<OutputId, OutputView>,
    pub nodes_issued: nat,
    pub inputs_issued: nat,
    pub outputs_issued: nat,
}

impl View for Node {
    type V = NodeView;

    open spec fn view(&self) -> NodeView {
        NodeView { user_data: self.user_data, inputs: self.inputs@, outputs: self.outputs@ }
    }
}

impl View for InputPort {
    type V = InputView;

    open spec fn view(&self) -> InputView {
        InputView {
            node: self.node,
            name: self.name@,
            typ: self.typ,
            value: self.value,
            connection: self.connection,
        }
    }
}

impl View for OutputPort {
    type V = OutputView;

    open spec fn view(&self) -> OutputView {
        OutputView { node: self.node, name: self.name@, typ: self.typ }
    }
}

impl GraphView {
    /// The ports that a node lists exist, belong to it, are listed once and
    /// bear names that differ from those of their siblings.
    pub open spec fn node_ok(self, n: NodeId) -> bool {
        let node = self.nodes[n];
        &&& node.inputs.no_duplicates()
        &&& node.outputs.no_duplicates()
        &&& forall|k: int|
            0 <= k < node.inputs.len() ==> self.inputs.contains_key(#[trigger] node.inputs[k])
                && self.inputs[node.inputs[k]].node == n
        &&& forall|k: int|
            0 <= k < node.outputs.len() ==> self.outputs.contains_key(#[trigger] node.outputs[k])
                && self.outputs[node.outputs[k]].node == n
        &&& forall|j: int, k: int|
            0 <= j < k < node.inputs.len() ==> self.inputs[#[trigger] node.inputs[j]].name
                != self.inputs[#[trigger] node.inputs[k]].name
        &&& forall|j: int, k: int|
            0 <= j < k < node.outputs.len() ==> self.outputs[#[trigger] node.outputs[j]].name
                != self.outputs[#[trigger] node.outputs[k]].name
    }

    /// An input belongs to a node that lists it, and what it is connected to
    /// exists.
    pub open spec fn input_ok(self, i: InputId) -> bool {
        let port = self.inputs[i];
        &&& self.nodes.contains_key(port.node)
        &&& self.nodes[port.node].inputs.contains(i)
        &&& port.connection matches Some(o) ==> self.outputs.contains_key(o)
    }

    /// An output belongs to a node that lists it.
    pub open spec fn output_ok(self, o: OutputId) -> bool {
        let port = self.outputs[o];
        &&& self.nodes.contains_key(port.node)
        &&& self.nodes[port.node].outputs.contains(o)
    }

    /// Whether `i` is the input of node `n` that bears `name`.
    pub open spec fn named_input(self, n: NodeId, name: Seq<char>, i: InputId) -> bool {
        &&& self.nodes.contains_key(n)
        &&& self.nodes[n].inputs.contains(i)
        &&& self.inputs[i].name == name
    }

    /// Whether `o` is the output of node `n` that bears `name`.
    pub open spec fn named_output(self, n: NodeId, name: Seq<char>, o: OutputId) -> bool {
        &&& self.nodes.contains_key(n)
        &&& self.nodes[n].outputs.contains(o)
        &&& self.outputs[o].name == name
    }

    /// The output that feeds input `i`, if `i` exists and is connected.
    pub open spec fn connection_of(self, i: InputId) -> Option<OutputId> {
        if self.inputs.contains_key(i) {
            self.inputs[i].connection
        } else {
            None
        }
    }

    /// The identity that the next new node gets.
    pub open spec fn next_node(self) -> NodeId {
        NodeId(self.nodes_issued as usize)
    }

    /// The identity that the next new input gets.
    pub open spec fn next_input(self) -> InputId {
        InputId(self.inputs_issued as usize)
    }

    /// The identity that the next new output gets.
    pub open spec fn next_output(self) -> OutputId {
        OutputId(self.outputs_issued as usize)
    }

    /// The graph with a new node `n` that has no ports yet.
    pub open spec fn with_node(self, n: NodeId, user_data: NodeData) -> GraphView {
        GraphView {
            nodes: self.nodes.insert(
                n,
                NodeView { user_data, inputs: Seq::empty(), outputs: Seq::empty() },
            ),
            nodes_issued: self.nodes_issued + 1,
            ..self
        }
    }

    /// The graph with a new, unconnected input `i` at the end of node `n`'s
    /// inputs.
    pub open spec fn with_input(
        self,
        n: NodeId,
        i: InputId,
        name: Seq<char>,
        typ: NodeType,
        value: NodeParameters,
    ) -> GraphView {
        GraphView {
            nodes: self.nodes.insert(
                n,
                NodeView { inputs: self.nodes[n].inputs.push(i), ..self.nodes[n] },
            ),
            inputs: self.inputs.insert(
                i,
                InputView { node: n, name, typ, value, connection: None },
            ),
            inputs_issued: self.inputs_issued + 1,
            ..self
        }
    }

    /// The graph with a new output `o` at the end of node `n`'s outputs.
    pub open spec fn with_output(
        self,
        n: NodeId,
        o: OutputId,
        name: Seq<char>,
        typ: NodeType,
    ) -> GraphView {
        GraphView {
            nodes: self.nodes.insert(
                n,
                NodeView { outputs: self.nodes[n].outputs.push(o), ..self.nodes[n] },
            ),
            outputs: self.outputs.insert(o, OutputView { node: n, name, typ }),
            outputs_issued: self.outputs_issued + 1,
            ..self
        }
    }

    /// The graph in which input `i` has the given connection, or none.
    pub open spec fn with_connection(self, i: InputId, connection: Option<OutputId>) -> GraphView {
        GraphView {
            inputs: self.inputs.insert(i, InputView { connection, ..self.inputs[i] }),
            ..self
        }
    }

    /// The graph in which input `i` has the given inline literal.
    pub open spec fn with_value(self, i: InputId, value: NodeParameters) -> GraphView {
        GraphView {
            inputs: self.inputs.insert(i, InputView { value, ..self.inputs[i] }),
            ..self
        }
    }

    /// Input `port` as it is once node `n` is gone: cut off from the outputs
    /// of `n`.
    pub open spec fn detached(self, port: InputView, n: NodeId) -> InputView {
        InputView {
            connection: match port.connection {
                Some(o) => if self.outputs[o].node == n {
                    None
                } else {
                    Some(o)
                },
                None => None,
            },
            ..port
        }
    }

    /// The graph without node `n`, without the ports of `n` and without the
    /// connections from its outputs.
    pub open spec fn without_node(self, n: NodeId) -> GraphView {
        GraphView {
            nodes: self.nodes.remove(n),
            inputs: Map::new(
                |i: InputId| self.inputs.contains_key(i) && self.inputs[i].node != n,
                |i: InputId| self.detached(self.inputs[i], n),
            ),
            outputs: Map::new(
                |o: OutputId| self.outputs.contains_key(o) && self.outputs[o].node != n,
                |o: OutputId| self.outputs[o],
            ),
            ..self
        }
    }

    /// The store's invariant: finitely many nodes and ports, each under an
    /// identity that was handed out; every reference between them resolves;
    /// and an input has at most one connection (which the shape of
    /// `InputView` already grants).
    pub open spec fn well_formed(self) -> bool {
        &&& self.nodes.dom().finite()
        &&& self.inputs.dom().finite()
        &&& self.outputs.dom().finite()
        &&& self.nodes_issued <= usize::MAX
        &&& self.inputs_issued <= usize::MAX
        &&& self.outputs_issued <= usize::MAX
        &&& forall|n: NodeId| #[trigger] self.nodes.contains_key(n) ==> n.0 < self.nodes_issued
        &&& forall|i: InputId| #[trigger] self.inputs.contains_key(i) ==> i.0 < self.inputs_issued
        &&& forall|o: OutputId| #[trigger]
            self.outputs.contains_key(o) ==> o.0 < self.outputs_issued
        &&& forall|n: NodeId| self.nodes.contains_key(n) ==> #[trigger] self.node_ok(n)
        &&& forall|i: InputId| self.inputs.contains_key(i) ==> #[trigger] self.input_ok(i)
        &&& forall|o: OutputId| self.outputs.contains_key(o) ==> #[trigger] self.output_ok(o)
    }
}

/// The graph store. Identities are positions in three arenas; a position is
/// never used twice, so an identity stays unknown once its item is removed.
pub struct Graph {
    nodes: Vec<Option<Node>>,
    inputs: Vec<Option<InputPort>>,
    outputs: Vec<Option<OutputPort>>,
}

impl View for Graph {
    type V = GraphView;

    closed spec fn view(&self) -> GraphView {
        GraphView {
            nodes: Map::new(
                |n: NodeId| n.0 < self.nodes.len() && self.nodes[n.0 as int] is Some,
                |n: NodeId| self.nodes[n.0 as int]->0@,
            ),
            inputs: Map::new(
                |i: InputId| i.0 < self.inputs.len() && self.inputs[i.0 as int] is Some,
                |i: InputId| self.inputs[i.0 as int]->0@,
            ),
            outputs: Map::new(
                |o: OutputId| o.0 < self.outputs.len() && self.outputs[o.0 as int] is Some,
                |o: OutputId| self.outputs[o.0 as int]->0@,
            ),
            nodes_issued: self.nodes.len() as nat,
            inputs_issued: self.inputs.len() as nat,
            outputs_issued: self.outputs.len() as nat,
        }
    }
}

impl Graph {
    /// Each item records the identity it stands under.
    pub closed spec fn ids_ok(&self) -> bool {
        &&& forall|k: int|
            0 <= k < self.nodes.len() && self.nodes[k] is Some ==> (#[trigger] self.nodes[k])->0.id.0
                == k
        &&& forall|k: int|
            0 <= k < self.inputs.len() && self.inputs[k] is Some
                ==> (#[trigger] self.inputs[k])->0.id.0 == k
        &&& forall|k: int|
            0 <= k < self.outputs.len() && self.outputs[k] is Some
                ==> (#[trigger] self.outputs[k])->0.id.0 == k
    }

    /// The store's invariant, which `new` establishes and every edit keeps.
    pub open spec fn wf(&self) -> bool {
        self.ids_ok() && self@.well_formed()
    }

    /// An empty graph.
    pub fn new() -> (g: Graph)
        ensures
            g.wf(),
            g@.nodes == Map::<NodeId, NodeView>::empty(),
            g@.inputs == Map::<InputId, InputView>::empty(),
            g@.outputs == Map::<OutputId, OutputView>::empty(),
            g@.nodes_issued == 0,
            g@.inputs_issued == 0,
            g@.outputs_issued == 0,
    {
        let g = Graph { nodes: Vec::new(), inputs: Vec::new(), outputs: Vec::new() };
        assert(g@.nodes =~= Map::<NodeId, NodeView>::empty());
        assert(g@.inputs =~= Map::<InputId, InputView>::empty());
        assert(g@.outputs =~= Map::<OutputId, OutputView>::empty());
        g
    }

    /// The number of node identities handed out so far: every node, present
    /// or removed, stands below it.
    pub fn node_bound(&self) -> (r: usize)
        requires
            self.wf(),
        ensures
            r == self@.nodes_issued,
            forall|n: NodeId| self@.nodes.contains_key(n) ==> n.0 < r,
    {
        self.nodes.len()
    }

    /// The node of the given identity.
    pub fn get_node(&self, node_id: NodeId) -> (r: Result<&Node, EvalError>)
        requires
            self.wf(),
        ensures
            match r {
                Ok(node) => self@.nodes.contains_key(node_id) && node@ == self@.nodes[node_id]
                    && node.id == node_id,
                Err(e) => !self@.nodes.contains_key(node_id) && e == EvalError::NotFound,
            },
    {
        if node_id.0 < self.nodes.len() {
            match &self.nodes[node_id.0] {
                Some(node) => Ok(node),
                None => Err(EvalError::NotFound),
            }
        } else {
            Err(EvalError::NotFound)
        }
    }

    /// The input port of the given identity.
    pub fn input(&self, input_id: InputId) -> (r: Result<&InputPort, EvalError>)
        requires
            self.wf(),
        ensures
            match r {
                Ok(port) => self@.inputs.contains_key(input_id) && port@ == self@.inputs[input_id]
                    && port.id == input_id,
                Err(e) => !self@.inputs.contains_key(input_id) && e == EvalError::NotFound,
            },
    {
        if input_id.0 < self.inputs.len() {
            match &self.inputs[input_id.0] {
                Some(port) => Ok(port),
                None => Err(EvalError::NotFound),
            }
        } else {
            Err(EvalError::NotFound)
        }
    }

    /// The output port of the given identity.
    pub fn output(&self, output_id: OutputId) -> (r: Result<&OutputPort, EvalError>)
        requires
            self.wf(),
        ensures
            match r {
                Ok(port) => self@.outputs.contains_key(output_id) && port@
                    == self@.outputs[output_id] && port.id == output_id,
                Err(e) => !self@.outputs.contains_key(output_id) && e == EvalError::NotFound,
            },
    {
        if output_id.0 < self.outputs.len() {
            match &self.outputs[output_id.0] {
                Some(port) => Ok(port),
                None => Err(EvalError::NotFound),
            }
        } else {
            Err(EvalError::NotFound)
        }
    }

    /// The output connected to the given input, if there is one.
    pub fn connection_of(&self, input_id: InputId) -> (r: Option<OutputId>)
        requires
            self.wf(),
        ensures
            r == self@.connection_of(input_id),
    {
        match self.input(input_id) {
            Ok(port) => port.connection,
            Err(_) => None,
        }
    }

    /// The input of `node_id` that bears `name`.
    pub fn get_input(&self, node_id: NodeId, name: &str) -> (r: Result<InputId, EvalError>)
        requires
            self.wf(),
        ensures
            match r {
                Ok(i) => self@.named_input(node_id, name@, i),
                Err(e) => if self@.nodes.contains_key(node_id) {
                    e == EvalError::UnknownPort && forall|i: InputId|
                        !self@.named_input(node_id, name@, i)
                } else {
                    e == EvalError::NotFound
                },
            },
    {
        let node = match self.get_node(node_id) {
            Ok(node) => node,
            Err(e) => { return Err(e); },
        };
        let wanted = name.to_owned();
        let mut k: usize = 0;
        while k < node.inputs.len()
            invariant
                self.wf(),
                self@.nodes.contains_key(node_id),
                node@ == self@.nodes[node_id],
                wanted@ == name@,
                k <= node.inputs.len(),
                forall|j: int| 0 <= j < k ==> self@.inputs[node.inputs@[j]].name != name@,
            decreases node.inputs.len() - k,
        {
            let id = node.inputs[k];
            assert(self@.node_ok(node_id));
            assert(self@.inputs.contains_key(node.inputs@[k as int]));
            match self.input(id) {
                Ok(port) => {
                    if port.name == wanted {
                        return Ok(id);
                    }
                },
                Err(_) => {},
            }
            k = k + 1;
        }
        Err(EvalError::UnknownPort)
    }

    /// The output of `node_id` that bears `name`.
    pub fn get_output(&self, node_id: NodeId, name: &str) -> (r: Result<OutputId, EvalError>)
        requires
            self.wf(),
        ensures
            match r {
                Ok(o) => self@.named_output(node_id, name@, o),
                Err(e) => if self@.nodes.contains_key(node_id) {
                    e == EvalError::UnknownPort && forall|o: OutputId|
                        !self@.named_output(node_id, name@, o)
                } else {
                    e == EvalError::NotFound
                },
            },
    {
        let node = match self.get_node(node_id) {
            Ok(node) => node,
            Err(e) => { return Err(e); },
        };
        let wanted = name.to_owned();
        let mut k: usize = 0;
        while k < node.outputs.len()
            invariant
                self.wf(),
                self@.nodes.contains_key(node_id),
                node@ == self@.nodes[node_id],
                wanted@ == name@,
                k <= node.outputs.len(),
                forall|j: int| 0 <= j < k ==> self@.outputs[node.outputs@[j]].name != name@,
            decreases node.outputs.len() - k,
        {
            let id = node.outputs[k];
            assert(self@.node_ok(node_id));
            assert(self@.outputs.contains_key(node.outputs@[k as int]));
            match self.output(id) {
                Ok(port) => {
                    if port.name == wanted {
                        return Ok(id);
                    }
                },
                Err(_) => {},
            }
            k = k + 1;
        }
        Err(EvalError::UnknownPort)
    }

    /// Adds a node without ports and returns its identity, which no node had
    /// before.
    pub fn add_node(&mut self, user_data: NodeData) -> (id: NodeId)
        requires
            old(self).wf(),
        ensures
            final(self).wf(),
            id == old(self)@.next_node(),
            !old(self)@.nodes.contains_key(id),
            final(self)@ == old(self)@.with_node(id, user_data),
    {
        let id = NodeId(self.nodes.len());
        let node = Node { id, inputs: Vec::new(), outputs: Vec::new(), user_data };
        self.nodes.push(Some(node));
        proof {
            let before = old(self)@;
            let after = self@;
            assert(after.nodes =~= before.with_node(id, user_data).nodes);
            assert(after.inputs =~= before.inputs);
            assert(after.outputs =~= before.outputs);
            lemma_with_node_wf(before, user_data);
        }
        id
    }

    /// Adds an unconnected input named `name` to node `node_id`, after the
    /// inputs the node already has. Refused, with the graph left as it was,
    /// when the node does not exist or already has an input of that name.
    pub fn add_input_param(
        &mut self,
        node_id: NodeId,
        name: String,
        typ: NodeType,
        value: NodeParameters,
    ) -> (r: Result<InputId, EditError>)
        requires
            old(self).wf(),
        ensures
            final(self).wf(),
            match r {
                Ok(i) => {
                    &&& old(self)@.nodes.contains_key(node_id)
                    &&& forall|j: InputId| !old(self)@.named_input(node_id, name@, j)
                    &&& i == old(self)@.next_input()
                    &&& !old(self)@.inputs.contains_key(i)
                    &&& final(self)@ == old(self)@.with_input(node_id, i, name@, typ, value)
                },
                Err(e) => {
                    &&& final(self)@ == old(self)@
                    &&& if old(self)@.nodes.contains_key(node_id) {
                        e == EditError::DuplicatePort && exists|j: InputId|
                            old(self)@.named_input(node_id, name@, j)
                    } else {
                        e == EditError::NotFound
                    }
                },
            },
    {
        match self.get_input(node_id, name.as_str()) {
            Ok(_) => { return Err(EditError::DuplicatePort); },
            Err(EvalError::UnknownPort) => {},
            Err(_) => { return Err(EditError::NotFound); },
        }
        let id = InputId(self.inputs.len());
        let ghost name_view = name@;
        let port = InputPort { id, node: node_id, name, typ, value, connection: None };
        self.inputs.push(Some(port));
        match &mut self.nodes[node_id.0] {
            Some(node) => { node.inputs.push(id); },
            None => {},
        }
        proof {
            let before = old(self)@;
            let want = before.with_input(node_id, id, name_view, typ, value);
            assert(self@.nodes =~= want.nodes);
            assert(self@.inputs =~= want.inputs);
            assert(self@.outputs =~= want.outputs);
            lemma_with_input_wf(before, node_id, name_view, typ, value);
        }
        Ok(id)
    }

    /// Adds an output named `name` to node `node_id`, after the outputs the
    /// node already has. Refused, with the graph left as it was, when the
    /// node does not exist or already has an output of that name.
    pub fn add_output_param(&mut self, node_id: NodeId, name: String, typ: NodeType) -> (r: Result<
        OutputId,
        EditError,
    >)
        requires
            old(self).wf(),
        ensures
            final(self).wf(),
            match r {
                Ok(o) => {
                    &&& old(self)@.nodes.contains_key(node_id)
                    &&& forall|j: OutputId| !old(self)@.named_output(node_id, name@, j)
                    &&& o == old(self)@.next_output()
                    &&& !old(self)@.outputs.contains_key(o)
                    &&& final(self)@ == old(self)@.with_output(node_id, o, name@, typ)
                },
                Err(e) => {
                    &&& final(self)@ == old(self)@
                    &&& if old(self)@.nodes.contains_key(node_id) {
                        e == EditError::DuplicatePort && exists|j: OutputId|
                            old(self)@.named_output(node_id, name@, j)
                    } else {
                        e == EditError::NotFound
                    }
                },
            },
    {
        match self.get_output(node_id, name.as_str()) {
            Ok(_) => { return Err(EditError::DuplicatePort); },
            Err(EvalError::UnknownPort) => {},
            Err(_) => { return Err(EditError::NotFound); },
        }
        let id = OutputId(self.outputs.len());
        let ghost name_view = name@;
        let port = OutputPort { id, node: node_id, name, typ };
        self.outputs.push(Some(port));
        match &mut self.nodes[node_id.0] {
            Some(node) => { node.outputs.push(id); },
            None => {},
        }
        proof {
            let before = old(self)@;
            let want = before.with_output(node_id, id, name_view, typ);
            assert(self@.nodes =~= want.nodes);
            assert(self@.inputs =~= want.inputs);
            assert(self@.outputs =~= want.outputs);
            lemma_with_output_wf(before, node_id, name_view, typ);
        }
        Ok(id)
    }

    /// Connects `output` to `input`. Refused, with the graph left as it was,
    /// when either port does not exist or the input is connected already: an
    /// input takes one connection, and a second never displaces the first.
    pub fn add_connection(&mut self, output: OutputId, input: InputId) -> (r: Result<
        (),
        EditError,
    >)
        requires
            old(self).wf(),
        ensures
            final(self).wf(),
            match r {
                Ok(()) => {
                    &&& old(self)@.inputs.contains_key(input)
                    &&& old(self)@.outputs.contains_key(output)
                    &&& old(self)@.connection_of(input) is None
                    &&& final(self)@ == old(self)@.with_connection(input, Some(output))
                },
                Err(e) => {
                    &&& final(self)@ == old(self)@
                    &&& if !old(self)@.inputs.contains_key(input)
                        || !old(self)@.outputs.contains_key(output) {
                        e == EditError::NotFound
                    } else {
                        e == EditError::InputConnected && old(self)@.connection_of(input) is Some
                    }
                },
            },
    {
        let connected = match self.input(input) {
            Ok(port) => port.connection.is_some(),
            Err(_) => { return Err(EditError::NotFound); },
        };
        if self.output(output).is_err() {
            return Err(EditError::NotFound);
        }
        if connected {
            return Err(EditError::InputConnected);
        }
        match &mut self.inputs[input.0] {
            Some(port) => { port.connection = Some(output); },
            None => {},
        }
        proof {
            let before = old(self)@;
            let want = before.with_connection(input, Some(output));
            assert(self@.nodes =~= want.nodes);
            assert(self@.inputs =~= want.inputs);
            assert(self@.outputs =~= want.outputs);
            lemma_with_connection_wf(before, input, Some(output));
        }
        Ok(())
    }

    /// Removes the connection into `input` and returns the output it came
    /// from. Nothing changes when there was none.
    pub fn remove_connection(&mut self, input: InputId) -> (r: Option<OutputId>)
        requires
            old(self).wf(),
        ensures
            final(self).wf(),
            r == old(self)@.connection_of(input),
            final(self)@ == if r is Some {
                old(self)@.with_connection(input, None)
            } else {
                old(self)@
            },
    {
        let previous = self.connection_of(input);
        if previous.is_none() {
            return None;
        }
        match &mut self.inputs[input.0] {
            Some(port) => { port.connection = None; },
            None => {},
        }
        proof {
            let before = old(self)@;
            let want = before.with_connection(input, None);
            assert(self@.nodes =~= want.nodes);
            assert(self@.inputs =~= want.inputs);
            assert(self@.outputs =~= want.outputs);
            lemma_with_connection_wf(before, input, None);
        }
        previous
    }

    /// Sets the inline literal of `input`. Refused when the input does not
    /// exist.
    pub fn set_input_value(&mut self, input: InputId, value: NodeParameters) -> (r: Result<
        (),
        EditError,
    >)
        requires
            old(self).wf(),
        ensures
            final(self).wf(),
            match r {
                Ok(()) => old(self)@.inputs.contains_key(input) && final(self)@
                    == old(self)@.with_value(input, value),
                Err(e) => !old(self)@.inputs.contains_key(input) && e == EditError::NotFound
                    && final(self)@ == old(self)@,
            },
    {
        if self.input(input).is_err() {
            return Err(EditError::NotFound);
        }
        match &mut self.inputs[input.0] {
            Some(port) => { port.value = value; },
            None => {},
        }
        proof {
            let before = old(self)@;
            let want = before.with_value(input, value);
            assert(self@.nodes =~= want.nodes);
            assert(self@.inputs =~= want.inputs);
            assert(self@.outputs =~= want.outputs);
            lemma_with_value_wf(before, input, value);
        }
        Ok(())
    }

    /// Removes node `node_id` with its ports and with every connection from
    /// one of its outputs. Its identity, and those of its ports, are unknown
    /// from then on. Refused when the node does not exist.
    pub fn remove_node(&mut self, node_id: NodeId) -> (r: Result<(), EditError>)
        requires
            old(self).wf(),
        ensures
            final(self).wf(),
            match r {
                Ok(()) => old(self)@.nodes.contains_key(node_id) && final(self)@
                    == old(self)@.without_node(node_id),
                Err(e) => !old(self)@.nodes.contains_key(node_id) && e == EditError::NotFound
                    && final(self)@ == old(self)@,
            },
    {
        if self.get_node(node_id).is_err() {
            return Err(EditError::NotFound);
        }
        let ghost before = old(self)@;
        let ghost old_inputs = self.inputs@;
        let ghost old_outputs = self.outputs@;
        let mut k: usize = 0;
        while k < self.inputs.len()
            invariant
                old(self).wf(),
                before == old(self)@,
                old_inputs == old(self).inputs@,
                old_outputs == old(self).outputs@,
                self.nodes@ == old(self).nodes@,
                self.outputs@ == old_outputs,
                self.inputs.len() == old_inputs.len(),
                k <= self.inputs.len(),
                forall|j: int| k <= j < old_inputs.len() ==> self.inputs[j] == old_inputs[j],
                forall|j: int|
                    0 <= j < k && (old_inputs[j] is None || old_inputs[j]->0.node == node_id)
                        ==> (#[trigger] self.inputs[j]) is None,
                forall|j: int|
                    0 <= j < k && old_inputs[j] is Some && old_inputs[j]->0.node != node_id ==> (
                    #[trigger] self.inputs[j]) is Some && self.inputs[j]->0@ == before.detached(
                        old_inputs[j]->0@,
                        node_id,
                    ) && self.inputs[j]->0.id == old_inputs[j]->0.id,
            decreases self.inputs.len() - k,
        {
            let mut remove = false;
            let mut detach = false;
            match &self.inputs[k] {
                Some(port) => {
                    if port.node.0 == node_id.0 {
                        remove = true;
                    } else {
                        match port.connection {
                            Some(o) => {
                                proof {
                                    assert(before.inputs.contains_key(InputId(k)));
                                    assert(before.input_ok(InputId(k)));
                                    assert(before.outputs.contains_key(o));
                                }
                                match &self.outputs[o.0] {
                                    Some(source) => {
                                        if source.node.0 == node_id.0 {
                                            detach = true;
                                        }
                                    },
                                    None => {},
                                }
                            },
                            None => {},
                        }
                    }
                },
                None => {},
            }
            if remove {
                self.inputs.set(k, None);
            } else if detach {
                match &mut self.inputs[k] {
                    Some(port) => { port.connection = None; },
                    None => {},
                }
            }
            k = k + 1;
        }
        let ghost new_inputs = self.inputs@;
        let mut j: usize = 0;
        while j < self.outputs.len()
            invariant
                self.nodes@ == old(self).nodes@,
                self.inputs@ == new_inputs,
                self.outputs.len() == old_outputs.len(),
                j <= self.outputs.len(),
                forall|i: int| j <= i < old_outputs.len() ==> self.outputs[i] == old_outputs[i],
                forall|i: int|
                    0 <= i < j ==> (#[trigger] self.outputs[i]) == if old_outputs[i] is Some
                        && old_outputs[i]->0.node != node_id {
                        old_outputs[i]
                    } else {
                        None
                    },
            decreases self.outputs.len() - j,
        {
            let remove = match &self.outputs[j] {
                Some(port) => port.node.0 == node_id.0,
                None => false,
            };
            if remove {
                self.outputs.set(j, None);
            }
            j = j + 1;
        }
        self.nodes.set(node_id.0, None);
        proof {
            let want = before.without_node(node_id);
            assert(self@.nodes =~= want.nodes);
            assert(self@.outputs =~= want.outputs);
            assert(self@.inputs =~= want.inputs);
            lemma_without_node_wf(before, node_id);
        }
        Ok(())
    }
}

/// To remove a node with its ports and the connections from its outputs
/// keeps the invariant.
pub proof fn lemma_without_node_wf(g: GraphView, n: NodeId)
    requires
        g.well_formed(),
        g.nodes.contains_key(n),
    ensures
        g.without_node(n).well_formed(),
{
    let h = g.without_node(n);
    assert(h.inputs.dom().subset_of(g.inputs.dom()));
    assert(h.outputs.dom().subset_of(g.outputs.dom()));
    vstd::set_lib::lemma_set_subset_finite(g.inputs.dom(), h.inputs.dom());
    vstd::set_lib::lemma_set_subset_finite(g.outputs.dom(), h.outputs.dom());
    assert forall|m: NodeId| h.nodes.contains_key(m) implies #[trigger] h.node_ok(m) by {
        assert(g.node_ok(m));
    }
    assert forall|i: InputId| h.inputs.contains_key(i) implies #[trigger] h.input_ok(i) by {
        assert(g.input_ok(i));
    }
    assert forall|o: OutputId| h.outputs.contains_key(o) implies #[trigger] h.output_ok(o) by {
        assert(g.output_ok(o));
    }
}

/// Changing what an input is connected to keeps the invariant, as long as
/// the new source exists.
pub proof fn lemma_with_connection_wf(g: GraphView, i: InputId, connection: Option<OutputId>)
    requires
        g.well_formed(),
        g.inputs.contains_key(i),
        connection matches Some(o) ==> g.outputs.contains_key(o),
    ensures
        g.with_connection(i, connection).well_formed(),
{
    let h = g.with_connection(i, connection);
    assert forall|m: NodeId| h.nodes.contains_key(m) implies #[trigger] h.node_ok(m) by {
        assert(g.node_ok(m));
    }
    assert forall|j: InputId| h.inputs.contains_key(j) implies #[trigger] h.input_ok(j) by {
        assert(g.input_ok(j));
    }
    assert forall|o: OutputId| h.outputs.contains_key(o) implies #[trigger] h.output_ok(o) by {
        assert(g.output_ok(o));
    }
}

/// Changing the inline literal of an input keeps the invariant.
pub proof fn lemma_with_value_wf(g: GraphView, i: InputId, value: NodeParameters)
    requires
        g.well_formed(),
        g.inputs.contains_key(i),
    ensures
        g.with_value(i, value).well_formed(),
{
    let h = g.with_value(i, value);
    assert forall|m: NodeId| h.nodes.contains_key(m) implies #[trigger] h.node_ok(m) by {
        assert(g.node_ok(m));
    }
    assert forall|j: InputId| h.inputs.contains_key(j) implies #[trigger] h.input_ok(j) by {
        assert(g.input_ok(j));
    }
    assert forall|o: OutputId| h.outputs.contains_key(o) implies #[trigger] h.output_ok(o) by {
        assert(g.output_ok(o));
    }
}

/// A new node without ports keeps the invariant.
pub proof fn lemma_with_node_wf(g: GraphView, user_data: NodeData)
    requires
        g.well_formed(),
        g.nodes_issued < usize::MAX,
    ensures
        g.with_node(g.next_node(), user_data).well_formed(),
        !g.nodes.contains_key(g.next_node()),
{
    let n = g.next_node();
    let h = g.with_node(n, user_data);
    assert forall|m: NodeId| h.nodes.contains_key(m) implies #[trigger] h.node_ok(m) by {
        if m != n {
            assert(g.node_ok(m));
        }
    }
    assert forall|i: InputId| h.inputs.contains_key(i) implies #[trigger] h.input_ok(i) by {
        assert(g.input_ok(i));
    }
    assert forall|o: OutputId| h.outputs.contains_key(o) implies #[trigger] h.output_ok(o) by {
        assert(g.output_ok(o));
    }
}

/// A new input under a name that its node does not use keeps the invariant.
pub proof fn lemma_with_input_wf(
    g: GraphView,
    n: NodeId,
    name: Seq<char>,
    typ: NodeType,
    value: NodeParameters,
)
    requires
        g.well_formed(),
        g.nodes.contains_key(n),
        g.inputs_issued < usize::MAX,
        forall|j: InputId| !g.named_input(n, name, j),
    ensures
        g.with_input(n, g.next_input(), name, typ, value).well_formed(),
        !g.inputs.contains_key(g.next_input()),
{
    let i = g.next_input();
    let h = g.with_input(n, i, name, typ, value);
    assert(g.node_ok(n));
    assert forall|m: NodeId| h.nodes.contains_key(m) implies #[trigger] h.node_ok(m) by {
        assert(g.node_ok(m));
        if m == n {
            let old_inputs = g.nodes[n].inputs;
            let new_inputs = h.nodes[n].inputs;
            assert forall|k: int| 0 <= k < old_inputs.len() implies old_inputs[k] != i by {
                assert(g.inputs.contains_key(old_inputs[k]));
            }
            assert(new_inputs.no_duplicates());
            assert forall|j: int, k: int| 0 <= j < k < new_inputs.len() implies h.inputs[
                #[trigger] new_inputs[j]].name != h.inputs[#[trigger] new_inputs[k]].name by {
                if k == old_inputs.len() {
                    assert(old_inputs.contains(old_inputs[j]));
                    assert(!g.named_input(n, name, old_inputs[j]));
                }
            }
        }
    }
    assert forall|j: InputId| h.inputs.contains_key(j) implies #[trigger] h.input_ok(j) by {
        if j == i {
            assert(h.nodes[n].inputs[g.nodes[n].inputs.len() as int] == i);
        } else {
            assert(g.input_ok(j));
            if g.inputs[j].node == n {
                let k = choose|k: int|
                    0 <= k < g.nodes[n].inputs.len() && g.nodes[n].inputs[k] == j;
                assert(h.nodes[n].inputs[k] == j);
            }
        }
    }
    assert forall|o: OutputId| h.outputs.contains_key(o) implies #[trigger] h.output_ok(o) by {
        assert(g.output_ok(o));
    }
}

/// A new output under a name that its node does not use keeps the invariant.
pub proof fn lemma_with_output_wf(
    g: GraphView,
    n: NodeId,
    name: Seq<char>,
    typ: NodeType,
)
    requires
        g.well_formed(),
        g.nodes.contains_key(n),
        g.outputs_issued < usize::MAX,
        forall|j: OutputId| !g.named_output(n, name, j),
    ensures
        g.with_output(n, g.next_output(), name, typ).well_formed(),
        !g.outputs.contains_key(g.next_output()),
{
    let o = g.next_output();
    let h = g.with_output(n, o, name, typ);
    assert(g.node_ok(n));
    assert forall|m: NodeId| h.nodes.contains_key(m) implies #[trigger] h.node_ok(m) by {
        assert(g.node_ok(m));
        if m == n {
            let old_outputs = g.nodes[n].outputs;
            let new_outputs = h.nodes[n].outputs;
            assert forall|k: int| 0 <= k < old_outputs.len() implies old_outputs[k] != o by {
                assert(g.outputs.contains_key(old_outputs[k]));
            }
            assert(new_outputs.no_duplicates());
            assert forall|j: int, k: int| 0 <= j < k < new_outputs.len() implies h.outputs[
                #[trigger] new_outputs[j]].name != h.outputs[#[trigger] new_outputs[k]].name by {
                if k == old_outputs.len() {
                    assert(old_outputs.contains(old_outputs[j]));
                    assert(!g.named_output(n, name, old_outputs[j]));
                }
            }
        }
    }
    assert forall|i: InputId| h.inputs.contains_key(i) implies #[trigger] h.input_ok(i) by {
        assert(g.input_ok(i));
    }
    assert forall|j: OutputId| h.outputs.contains_key(j) implies #[trigger] h.output_ok(j) by {
        if j == o {
            assert(h.nodes[n].outputs[g.nodes[n].outputs.len() as int] == o);
        } else {
            assert(g.output_ok(j));
            if g.outputs[j].node == n {
                let k = choose|k: int|
                    0 <= k < g.nodes[n].outputs.len() && g.nodes[n].outputs[k] == j;
                assert(h.nodes[n].outputs[k] == j);
            }
        }
    }
}

} // verus!

//! The blocks of one graph, the connections between their ports, and the
//! order in which the blocks are evaluated.

use crate::block::{BlockView, ConnectionType, DraggableBlock, PortView};
use crate::dependency_resolution::{
    adjacency_of, edges_in_range, evaluation_order, first_with_value,
    lemma_first_with_value_in_range, lemma_order_permutes, lemma_with_dependency_well_formed,
    well_formed, with_value_dependency, Graph, NodeView,
};
use crate::id::Id;
use crate::value::{InputValue, ValueKind};
use crate::wiring::{
    feeds, lemma_connected_wired, lemma_disconnected_wired, lemma_first_blocks_wired,
    lemma_rebuilt_wired, lemma_with_block_wired, sided, well_made, wired,
};
use std::collections::HashMap;
use vstd::prelude::*;

verus! {

/// The blocks of one graph and what connects them.
pub struct BlockContext {
    /// The identity of the one thing that is being dragged.
    pub currently_dragging: Option<usize>,
    pub blocks: Vec<Option<DraggableBlock>>,
    /// The connections in the order in which they were made, each as the
    /// input port and the output port that feeds it. No pair occurs twice.
    pub connections: Vec<(Id, Id)>,
    /// From an input port to the output port that feeds it.
    pub input_output: HashMap<usize, Id>,
    /// From an input port to the block that owns the output port that feeds
    /// it.
    pub inputs: HashMap<usize, Id>,
    /// One node for each block, which carries the number of the identity of
    /// the block.
    pub graph: Graph<usize>,
    /// Handles of the nodes of `graph`, in the order of their evaluation.
    pub graph_order: Vec<usize>,
    /// From a block to its index in `blocks`.
    pub block_ids: HashMap<usize, usize>,
}

/// The mathematical content of a [`BlockContext`].
pub ghost struct ContextView {
    pub currently_dragging: Option<usize>,
    pub blocks: Seq<Option<BlockView>>,
    pub connections: Seq<(Id, Id)>,
    pub input_output: Map<usize, Id>,
    pub inputs: Map<usize, Id>,
    pub graph: Seq<NodeView<usize>>,
    pub graph_order: Seq<usize>,
    pub block_ids: Map<usize, usize>,
}

/// The blocks of a list, each as its content.
pub open spec fn blocks_view(blocks: Seq<Option<DraggableBlock>>) -> Seq<Option<BlockView>> {
    Seq::new(
        blocks.len(),
        |k: int|
            match blocks[k] {
                Some(block) => Some(block@),
                None => None,
            },
    )
}

/// The blocks of a list, each as its content.
pub open spec fn block_views(blocks: Seq<DraggableBlock>) -> Seq<BlockView> {
    Seq::new(blocks.len(), |k: int| blocks[k]@)
}

impl View for BlockContext {
    type V = ContextView;

    open spec fn view(&self) -> ContextView {
        ContextView {
            currently_dragging: self.currently_dragging,
            blocks: blocks_view(self.blocks@),
            connections: self.connections@,
            input_output: self.input_output@,
            inputs: self.inputs@,
            graph: self.graph@,
            graph_order: self.graph_order@,
            block_ids: self.block_ids@,
        }
    }
}

/// The node that stands in a graph of `count` nodes for the block `id`.
pub open spec fn node_for(id: Id, count: int) -> NodeView<usize> {
    NodeView {
        handle: count,
        name: Seq::empty(),
        depends_on: Seq::empty(),
        is_dependent_of: Seq::empty(),
        value: id.0,
    }
}

/// One node without edges for each of the first `count` places of `blocks`
/// that holds a block, in their order.
pub open spec fn nodes_of_first(blocks: Seq<Option<BlockView>>, count: nat) -> Seq<NodeView<usize>>
    decreases count,
{
    if count == 0 {
        Seq::empty()
    } else {
        let nodes = nodes_of_first(blocks, (count - 1) as nat);
        match blocks[count - 1] {
            Some(block) => nodes.push(node_for(block.id, nodes.len() as int)),
            None => nodes,
        }
    }
}

/// The nodes after the connections of the first `count` inputs of `block`
/// were recorded: the block depends on the owner of each output that feeds
/// one of its inputs.
pub open spec fn linked_first_inputs(
    nodes: Seq<NodeView<usize>>,
    block: BlockView,
    inputs: Map<usize, Id>,
    count: nat,
) -> Seq<NodeView<usize>>
    decreases count,
{
    if count == 0 {
        nodes
    } else {
        let before = linked_first_inputs(nodes, block, inputs, (count - 1) as nat);
        let port = block.inputs[count - 1];
        if inputs.contains_key(port.id.0) {
            with_value_dependency(before, block.id.0, inputs[port.id.0].0)
        } else {
            before
        }
    }
}

/// The nodes after the connections of the first `count` places of `blocks`
/// were recorded.
pub open spec fn linked_first_blocks(
    nodes: Seq<NodeView<usize>>,
    blocks: Seq<Option<BlockView>>,
    inputs: Map<usize, Id>,
    count: nat,
) -> Seq<NodeView<usize>>
    decreases count,
{
    if count == 0 {
        nodes
    } else {
        let before = linked_first_blocks(nodes, blocks, inputs, (count - 1) as nat);
        match blocks[count - 1] {
            Some(block) => linked_first_inputs(before, block, inputs, block.inputs.len()),
            None => before,
        }
    }
}

/// The dependency graph that the blocks and their connections give rise to.
pub open spec fn graph_of(blocks: Seq<Option<BlockView>>, inputs: Map<usize, Id>) -> Seq<
    NodeView<usize>,
> {
    linked_first_blocks(nodes_of_first(blocks, blocks.len()), blocks, inputs, blocks.len())
}

/// Index of the first connection at or after `from` that has `id` at one of
/// its ends.
pub open spec fn first_touching(connections: Seq<(Id, Id)>, id: Id, from: int) -> Option<int>
    decreases connections.len() - from,
{
    if from < 0 || from >= connections.len() {
        None
    } else if connections[from].0 == id || connections[from].1 == id {
        Some(from)
    } else {
        first_touching(connections, id, from + 1)
    }
}

/// A port of kind `kind` may take up a connection with `port`, which the
/// pointer is on.
pub open spec fn accepts(port: PortView, kind: ValueKind, under_pointer: Seq<Id>) -> bool {
    port.value.kind() == kind && under_pointer.contains(port.id)
}

/// The last of the first `count` of `ports` that [`accepts`] a connection.
pub open spec fn last_accepting(
    ports: Seq<PortView>,
    kind: ValueKind,
    under_pointer: Seq<Id>,
    count: nat,
) -> Option<PortView>
    decreases count,
{
    if count == 0 {
        None
    } else if accepts(ports[count - 1], kind, under_pointer) {
        Some(ports[count - 1])
    } else {
        last_accepting(ports, kind, under_pointer, (count - 1) as nat)
    }
}

/// The port that a connection from a port on the side `my_type` lands on:
/// in the first block, at or after `from`, that has a port across that
/// accepts it, the last such port.
pub open spec fn landing_port(
    blocks: Seq<Option<BlockView>>,
    my_type: ConnectionType,
    kind: ValueKind,
    under_pointer: Seq<Id>,
    from: int,
) -> Option<PortView>
    decreases blocks.len() - from,
{
    if from < 0 || from >= blocks.len() {
        None
    } else {
        let here = match blocks[from] {
            Some(block) => last_accepting(
                block.ports(my_type.opposite()),
                kind,
                under_pointer,
                block.ports(my_type.opposite()).len(),
            ),
            None => None,
        };
        if here is Some {
            here
        } else {
            landing_port(blocks, my_type, kind, under_pointer, from + 1)
        }
    }
}

/// A context without blocks.
pub open spec fn empty_context() -> ContextView {
    ContextView {
        currently_dragging: None,
        blocks: Seq::empty(),
        connections: Seq::empty(),
        input_output: Map::empty(),
        inputs: Map::empty(),
        graph: Seq::empty(),
        graph_order: Seq::empty(),
        block_ids: Map::empty(),
    }
}

impl ContextView {
    /// The context after the connection between the input `input` and the
    /// output `output`, owned by `parent`, was asked for. It is made unless
    /// the input has a connection already, and is kept as the pair of the
    /// input and the output.
    pub open spec fn joined(self, input: Id, output: Id, parent: Id) -> ContextView {
        if self.inputs.contains_key(input.0) {
            self
        } else {
            ContextView {
                inputs: self.inputs.insert(input.0, parent),
                input_output: self.input_output.insert(input.0, output),
                connections: if self.connections.contains((input, output)) {
                    self.connections
                } else {
                    self.connections.push((input, output))
                },
                ..self
            }
        }
    }

    /// The context after the port `my_id` on the side `my_type` of the block
    /// `my_parent`, holding a value of kind `kind`, let go of a connection
    /// over the ports `under_pointer`.
    pub open spec fn connected(
        self,
        my_parent: Id,
        my_id: Id,
        my_type: ConnectionType,
        kind: ValueKind,
        under_pointer: Seq<Id>,
    ) -> ContextView {
        match landing_port(self.blocks, my_type, kind, under_pointer, 0) {
            None => self,
            Some(port) => match my_type {
                ConnectionType::Inputs => self.joined(my_id, port.id, port.parent_id),
                ConnectionType::Outputs => self.joined(port.id, my_id, my_parent),
            },
        }
    }

    /// The context without the first connection that has `id` at one of its
    /// ends.
    pub open spec fn disconnected(self, id: Id) -> ContextView {
        match first_touching(self.connections, id, 0) {
            None => self,
            Some(k) => {
                let ends = self.connections[k];
                ContextView {
                    connections: self.connections.remove(k),
                    inputs: self.inputs.remove(ends.0.0).remove(ends.1.0),
                    input_output: self.input_output.remove(ends.0.0).remove(ends.1.0),
                    ..self
                }
            },
        }
    }

    /// The context with its dependency graph and its order of evaluation
    /// made anew from the blocks and their connections.
    pub open spec fn rebuilt(self) -> ContextView {
        ContextView {
            graph: graph_of(self.blocks, self.inputs),
            graph_order: evaluation_order(adjacency_of(graph_of(self.blocks, self.inputs))),
            ..self
        }
    }

    /// The context with one more block.
    pub open spec fn with_block(self, block: BlockView) -> ContextView {
        let graph = self.graph.push(node_for(block.id, self.graph.len() as int));
        ContextView {
            blocks: self.blocks.push(Some(block.adopted())),
            graph,
            graph_order: evaluation_order(adjacency_of(graph)),
            block_ids: self.block_ids.insert(block.id.0, self.blocks.len() as usize),
            ..self
        }
    }

    /// The two maps of the connected inputs are in step: an input has a
    /// feeding block exactly if it has a feeding output.
    pub open spec fn in_step(self) -> bool {
        self.inputs.dom() == self.input_output.dom()
    }

    /// The invariant of a context: the dependency graph is well formed, the
    /// order of evaluation is the order of that graph, and every block and
    /// every node of the graph can be found among the blocks.
    pub open spec fn wf(self) -> bool {
        &&& well_formed(self.graph)
        &&& self.graph_order == evaluation_order(adjacency_of(self.graph))
        &&& forall|i: int|
            0 <= i < self.blocks.len() && (#[trigger] self.blocks[i]) is Some
                ==> self.block_ids.contains_key(self.blocks[i].unwrap().id.0)
                && self.block_ids[self.blocks[i].unwrap().id.0] < self.blocks.len()
        &&& forall|n: int|
            0 <= n < self.graph.len() ==> self.block_ids.contains_key(
                (#[trigger] self.graph[n]).value,
            ) && self.block_ids[self.graph[n].value] < self.blocks.len()
    }

    /// Index in `blocks` of the block that stands at `position` of the
    /// evaluation order.
    pub open spec fn block_index_at(self, position: int) -> usize {
        self.block_ids[self.graph[self.graph_order[position] as int].value]
    }

    /// Every entry of the evaluation order names a node of the graph, and
    /// every node of the graph names a block.
    pub open spec fn runnable(self) -> bool {
        &&& forall|p: int|
            0 <= p < self.graph_order.len() ==> (#[trigger] self.graph_order[p]) < self.graph.len()
        &&& forall|n: int|
            0 <= n < self.graph.len() ==> self.block_ids.contains_key(
                (#[trigger] self.graph[n]).value,
            ) && self.block_ids[self.graph[n].value] < self.blocks.len()
    }
}

/// The context that holds the first `count` of `blocks` and no connection.
pub open spec fn with_first_blocks(blocks: Seq<BlockView>, count: nat) -> ContextView
    decreases count,
{
    if count == 0 {
        empty_context()
    } else {
        with_first_blocks(blocks, (count - 1) as nat).with_block(blocks[count - 1])
    }
}

/// One of the first `count` places of `blocks` holds a block with the
/// identity number `value`.
pub open spec fn names_block(blocks: Seq<Option<BlockView>>, count: int, value: usize) -> bool {
    exists|i: int|
        0 <= i < count && i < blocks.len() && (#[trigger] blocks[i]) is Some
            && blocks[i].unwrap().id.0 == value
}

/// `port` is a port of one of `blocks`, on the side `side`.
pub open spec fn port_of(blocks: Seq<Option<BlockView>>, side: ConnectionType, port: PortView) -> bool {
    exists|i: int, k: int|
        0 <= i < blocks.len() && (#[trigger] blocks[i]) is Some && 0 <= k
            < blocks[i].unwrap().ports(side).len() && #[trigger] blocks[i].unwrap().ports(side)[k]
            == port
}

/// Recording a dependency between two values keeps the nodes in place:
/// their number, their handles and what they carry stay, and so does the
/// invariant of the graph.
pub proof fn lemma_value_dependency_keeps(nodes: Seq<NodeView<usize>>, a: usize, b: usize)
    requires
        nodes.len() <= usize::MAX,
    ensures
        with_value_dependency(nodes, a, b).len() == nodes.len(),
        forall|n: int|
            0 <= n < nodes.len() ==> (#[trigger] with_value_dependency(nodes, a, b)[n]).value
                == nodes[n].value,
        well_formed(nodes) ==> well_formed(with_value_dependency(nodes, a, b)),
{
    lemma_first_with_value_in_range(nodes, a, 0);
    lemma_first_with_value_in_range(nodes, b, 0);
    match (first_with_value(nodes, a, 0), first_with_value(nodes, b, 0)) {
        (Some(x), Some(y)) => {
            if well_formed(nodes) {
                lemma_with_dependency_well_formed(nodes, x, y);
            }
        },
        _ => {},
    }
}

/// Recording the connections of a block keeps the nodes in place.
pub proof fn lemma_linked_inputs_keep(
    nodes: Seq<NodeView<usize>>,
    block: BlockView,
    inputs: Map<usize, Id>,
    count: nat,
)
    requires
        nodes.len() <= usize::MAX,
    ensures
        linked_first_inputs(nodes, block, inputs, count).len() == nodes.len(),
        forall|n: int|
            0 <= n < nodes.len() ==> (#[trigger] linked_first_inputs(
                nodes,
                block,
                inputs,
                count,
            )[n]).value == nodes[n].value,
        well_formed(nodes) ==> well_formed(linked_first_inputs(nodes, block, inputs, count)),
    decreases count,
{
    if count > 0 {
        lemma_linked_inputs_keep(nodes, block, inputs, (count - 1) as nat);
        let before = linked_first_inputs(nodes, block, inputs, (count - 1) as nat);
        let port = block.inputs[count - 1];
        if inputs.contains_key(port.id.0) {
            lemma_value_dependency_keeps(before, block.id.0, inputs[port.id.0].0);
        }
    }
}

/// Recording the connections of all blocks keeps the nodes in place.
pub proof fn lemma_linked_blocks_keep(
    nodes: Seq<NodeView<usize>>,
    blocks: Seq<Option<BlockView>>,
    inputs: Map<usize, Id>,
    count: nat,
)
    requires
        nodes.len() <= usize::MAX,
    ensures
        linked_first_blocks(nodes, blocks, inputs, count).len() == nodes.len(),
        forall|n: int|
            0 <= n < nodes.len() ==> (#[trigger] linked_first_blocks(
                nodes,
                blocks,
                inputs,
                count,
            )[n]).value == nodes[n].value,
        well_formed(nodes) ==> well_formed(linked_first_blocks(nodes, blocks, inputs, count)),
    decreases count,
{
    if count > 0 {
        lemma_linked_blocks_keep(nodes, blocks, inputs, (count - 1) as nat);
        let before = linked_first_blocks(nodes, blocks, inputs, (count - 1) as nat);
        match blocks[count - 1] {
            Some(block) => {
                lemma_linked_inputs_keep(before, block, inputs, block.inputs.len());
            },
            None => {},
        }
    }
}

/// The nodes made for the blocks: at most one for each place, each for a
/// block of the list, without edges.
pub proof fn lemma_nodes_of_blocks(blocks: Seq<Option<BlockView>>, count: nat)
    requires
        count <= blocks.len(),
    ensures
        nodes_of_first(blocks, count).len() <= count,
        well_formed(nodes_of_first(blocks, count)),
        forall|n: int|
            0 <= n < nodes_of_first(blocks, count).len() ==> {
                &&& (#[trigger] nodes_of_first(blocks, count)[n]).depends_on.len() == 0
                &&& nodes_of_first(blocks, count)[n].is_dependent_of.len() == 0
                &&& names_block(blocks, count as int, nodes_of_first(blocks, count)[n].value)
            },
    decreases count,
{
    if count > 0 {
        lemma_nodes_of_blocks(blocks, (count - 1) as nat);
        let before = nodes_of_first(blocks, (count - 1) as nat);
        let after = nodes_of_first(blocks, count);
        assert forall|n: int| 0 <= n < after.len() implies {
            &&& (#[trigger] after[n]).depends_on.len() == 0
            &&& after[n].is_dependent_of.len() == 0
            &&& after[n].handle == n
            &&& names_block(blocks, count as int, after[n].value)
        } by {
            if n < before.len() {
                assert(after[n] == before[n]);
                let i = choose|i: int|
                    0 <= i < count - 1 && i < blocks.len() && (#[trigger] blocks[i]) is Some
                        && blocks[i].unwrap().id.0 == before[n].value;
                assert(blocks[i] is Some && blocks[i].unwrap().id.0 == after[n].value);
            } else {
                assert(blocks[count - 1] is Some && blocks[count - 1].unwrap().id.0
                    == after[n].value);
            }
        }
        assert forall|a: int, b: int| 0 <= a < after.len() && 0 <= b < after.len() implies (
        crate::dependency_resolution::mentions(after[a].depends_on, b)
            <==> #[trigger] crate::dependency_resolution::mentions(after[b].is_dependent_of, a)) by {
            assert(after[a].depends_on.len() == 0);
            assert(after[b].is_dependent_of.len() == 0);
        }
    } else {
        assert(edges_in_range(adjacency_of(nodes_of_first(blocks, count))));
    }
}

/// What [`last_accepting`] finds is one of the ports and accepts the
/// connection; it finds nothing only where no port accepts it.
pub proof fn lemma_last_accepting(
    ports: Seq<PortView>,
    kind: ValueKind,
    under_pointer: Seq<Id>,
    count: nat,
)
    requires
        count <= ports.len(),
    ensures
        match last_accepting(ports, kind, under_pointer, count) {
            Some(port) => accepts(port, kind, under_pointer) && exists|k: int|
                0 <= k < count && #[trigger] ports[k] == port,
            None => forall|k: int| 0 <= k < count ==> !accepts(#[trigger] ports[k], kind, under_pointer),
        },
    decreases count,
{
    if count > 0 {
        if accepts(ports[count - 1], kind, under_pointer) {
            assert(ports[count - 1] == ports[count - 1]);
        } else {
            lemma_last_accepting(ports, kind, under_pointer, (count - 1) as nat);
            match last_accepting(ports, kind, under_pointer, (count - 1) as nat) {
                Some(port) => {
                    let k = choose|k: int| 0 <= k < count - 1 && #[trigger] ports[k] == port;
                    assert(ports[k] == port);
                },
                None => {},
            }
        }
    }
}

/// The port that a connection lands on is a port across, holds a value of
/// the same kind, and is under the pointer; a connection lands nowhere only
/// where no port across is such a port.
pub proof fn lemma_landing_port(
    blocks: Seq<Option<BlockView>>,
    my_type: ConnectionType,
    kind: ValueKind,
    under_pointer: Seq<Id>,
    from: int,
)
    requires
        0 <= from,
    ensures
        match landing_port(blocks, my_type, kind, under_pointer, from) {
            Some(port) => accepts(port, kind, under_pointer) && port_of(
                blocks,
                my_type.opposite(),
                port,
            ),
            None => forall|i: int, k: int|
                from <= i < blocks.len() && (#[trigger] blocks[i]) is Some && 0 <= k
                    < blocks[i].unwrap().ports(my_type.opposite()).len() ==> !accepts(
                    #[trigger] blocks[i].unwrap().ports(my_type.opposite())[k],
                    kind,
                    under_pointer,
                ),
        },
    decreases blocks.len() - from,
{
    if from < blocks.len() {
        lemma_landing_port(blocks, my_type, kind, under_pointer, from + 1);
        match blocks[from] {
            Some(block) => {
                let ports = block.ports(my_type.opposite());
                lemma_last_accepting(ports, kind, under_pointer, ports.len());
                match last_accepting(ports, kind, under_pointer, ports.len()) {
                    Some(port) => {
                        let k = choose|k: int| 0 <= k < ports.len() && #[trigger] ports[k] == port;
                        assert(blocks[from] is Some && blocks[from].unwrap().ports(
                            my_type.opposite(),
                        )[k] == port);
                    },
                    None => {},
                }
            },
            None => {},
        }
    }
}

/// No connection is made between ports that hold values of different
/// kinds: where no port across that is under the pointer holds a value of
/// the kind `kind`, nothing changes.
pub proof fn lemma_kinds_must_match(
    ctx: ContextView,
    my_parent: Id,
    my_id: Id,
    my_type: ConnectionType,
    kind: ValueKind,
    under_pointer: Seq<Id>,
)
    requires
        forall|port: PortView|
            port_of(ctx.blocks, my_type.opposite(), port) && under_pointer.contains(port.id)
                ==> port.value.kind() != kind,
    ensures
        ctx.connected(my_parent, my_id, my_type, kind, under_pointer) == ctx,
{
    lemma_landing_port(ctx.blocks, my_type, kind, under_pointer, 0);
}

/// A connection that is made joins a port with a port across that holds a
/// value of the same kind.
pub proof fn lemma_connection_joins_same_kind(
    ctx: ContextView,
    my_parent: Id,
    my_id: Id,
    my_type: ConnectionType,
    kind: ValueKind,
    under_pointer: Seq<Id>,
)
    requires
        ctx.connected(my_parent, my_id, my_type, kind, under_pointer) != ctx,
    ensures
        exists|port: PortView|
            port_of(ctx.blocks, my_type.opposite(), port) && port.value.kind() == kind
                && under_pointer.contains(port.id) && #[trigger] landing_port(
                ctx.blocks,
                my_type,
                kind,
                under_pointer,
                0,
            ) == Some(port),
{
    lemma_landing_port(ctx.blocks, my_type, kind, under_pointer, 0);
}

/// Making and taking away connections keeps the two maps of the connected
/// inputs in step: the inputs that have a feeding block are those that have
/// a feeding output.
pub proof fn lemma_maps_stay_in_step(
    ctx: ContextView,
    my_parent: Id,
    my_id: Id,
    my_type: ConnectionType,
    kind: ValueKind,
    under_pointer: Seq<Id>,
    id: Id,
)
    requires
        ctx.in_step(),
    ensures
        ctx.connected(my_parent, my_id, my_type, kind, under_pointer).in_step(),
        ctx.disconnected(id).in_step(),
{
    let joined = ctx.connected(my_parent, my_id, my_type, kind, under_pointer);
    assert(joined.inputs.dom() =~= joined.input_output.dom());
    let parted = ctx.disconnected(id);
    assert(parted.inputs.dom() =~= parted.input_output.dom());
}

/// A connection that is made is kept under its input and its output,
/// whichever of the two it was dragged from: the input had no connection
/// before, it is now fed by the output and by the block that owns the
/// output, the pair of input and output is among the connections, and
/// nothing else has changed.
pub proof fn lemma_connection_kept_by_input_and_output(
    ctx: ContextView,
    my_parent: Id,
    my_id: Id,
    my_type: ConnectionType,
    kind: ValueKind,
    under_pointer: Seq<Id>,
)
    requires
        ctx.connected(my_parent, my_id, my_type, kind, under_pointer) != ctx,
    ensures
        ({
            let after = ctx.connected(my_parent, my_id, my_type, kind, under_pointer);
            let landing = landing_port(ctx.blocks, my_type, kind, under_pointer, 0).unwrap();
            let input = if my_type == ConnectionType::Inputs {
                my_id
            } else {
                landing.id
            };
            let output = if my_type == ConnectionType::Inputs {
                landing.id
            } else {
                my_id
            };
            let parent = if my_type == ConnectionType::Inputs {
                landing.parent_id
            } else {
                my_parent
            };
            &&& landing_port(ctx.blocks, my_type, kind, under_pointer, 0) is Some
            &&& !ctx.inputs.contains_key(input.0)
            &&& after.inputs == ctx.inputs.insert(input.0, parent)
            &&& after.input_output == ctx.input_output.insert(input.0, output)
            &&& after.connections.contains((input, output))
            &&& after.connections == ctx.connections || after.connections
                == ctx.connections.push((input, output))
            &&& after == ContextView {
                inputs: after.inputs,
                input_output: after.input_output,
                connections: after.connections,
                ..ctx
            }
        }),
{
    let after = ctx.connected(my_parent, my_id, my_type, kind, under_pointer);
    let landing = landing_port(ctx.blocks, my_type, kind, under_pointer, 0).unwrap();
    let made = match my_type {
        ConnectionType::Inputs => (my_id, landing.id),
        ConnectionType::Outputs => (landing.id, my_id),
    };
    if !ctx.connections.contains(made) {
        assert(ctx.connections.push(made)[ctx.connections.len() as int] == made);
    }
}

/// An input that has a connection keeps it: asking for a connection
/// changes nothing for the inputs that are connected already, and adds one
/// connection at most.
pub proof fn lemma_connected_input_keeps(
    ctx: ContextView,
    my_parent: Id,
    my_id: Id,
    my_type: ConnectionType,
    kind: ValueKind,
    under_pointer: Seq<Id>,
)
    requires
        ctx.in_step(),
    ensures
        ({
            let after = ctx.connected(my_parent, my_id, my_type, kind, under_pointer);
            &&& forall|input: usize| #[trigger]
                ctx.inputs.contains_key(input) ==> after.inputs.contains_key(input)
                    && after.inputs[input] == ctx.inputs[input]
            &&& forall|input: usize| #[trigger]
                ctx.input_output.contains_key(input) ==> after.input_output.contains_key(input)
                    && after.input_output[input] == ctx.input_output[input]
            &&& after.connections == ctx.connections || (exists|made: (Id, Id)|
                !ctx.connections.contains(made) && after.connections == #[trigger] ctx.connections.push(made))
            &&& ctx.connections.no_duplicates() ==> after.connections.no_duplicates()
        }),
{
    let after = ctx.connected(my_parent, my_id, my_type, kind, under_pointer);
    assert forall|input: usize| #[trigger]
        ctx.input_output.contains_key(input) implies ctx.inputs.contains_key(input) by {
        assert(ctx.input_output.dom().contains(input));
    }
    match landing_port(ctx.blocks, my_type, kind, under_pointer, 0) {
        None => {},
        Some(port) => {
            let made = match my_type {
                ConnectionType::Inputs => (my_id, port.id),
                ConnectionType::Outputs => (port.id, my_id),
            };
            if after.connections != ctx.connections {
                assert(after.connections == ctx.connections.push(made));
                assert(!ctx.connections.contains(made));
                if ctx.connections.no_duplicates() {
                    assert forall|i: int, j: int|
                        0 <= i < after.connections.len() && 0 <= j < after.connections.len() && i
                            != j implies after.connections[i] != after.connections[j] by {
                        if i < ctx.connections.len() && j < ctx.connections.len() {
                        } else if i < ctx.connections.len() {
                            assert(ctx.connections.contains(ctx.connections[i]));
                        } else {
                            assert(ctx.connections.contains(ctx.connections[j]));
                        }
                    }
                }
            }
        },
    }
}

/// A context that keeps its invariant can be run.
pub proof fn lemma_wf_runnable(ctx: ContextView)
    requires
        ctx.wf(),
        ctx.graph.len() <= usize::MAX,
    ensures
        ctx.runnable(),
{
    lemma_order_permutes(adjacency_of(ctx.graph), ctx.graph.len());
}

/// The elements of `list` from last to first.
pub fn turned_round<T>(list: Vec<T>) -> (turned: Vec<T>)
    ensures
        turned@ == list@.reverse(),
{
    let ghost given = list@;
    let mut list = list;
    let mut turned: Vec<T> = Vec::new();
    while list.len() > 0
        invariant
            list@.len() + turned@.len() == given.len(),
            forall|j: int| 0 <= j < list@.len() ==> list@[j] == given[j],
            forall|j: int| 0 <= j < turned@.len() ==> turned@[j] == given[given.len() - 1 - j],
        decreases list@.len(),
    {
        let last = list.pop().unwrap();
        turned.push(last);
    }
    assert(turned@ =~= given.reverse());
    turned
}

/// Does `list` hold `id`?
pub fn holds_id(list: &Vec<Id>, id: Id) -> (found: bool)
    ensures
        found == list@.contains(id),
{
    let mut k: usize = 0;
    while k < list.len()
        invariant
            k <= list@.len(),
            forall|j: int| 0 <= j < k ==> list@[j] != id,
        decreases list@.len() - k,
    {
        if list[k] == id {
            return true;
        }
        k += 1;
    }
    false
}

/// The last port of `block`, across from the side `my_type`, that accepts a
/// connection with a port of kind `kind`.
pub fn find_accepting(
    block: &DraggableBlock,
    my_type: ConnectionType,
    kind: ValueKind,
    under_pointer: &Vec<Id>,
) -> (found: Option<(Id, Id)>)
    ensures
        match last_accepting(
            block@.ports(my_type.opposite()),
            kind,
            under_pointer@,
            block@.ports(my_type.opposite()).len(),
        ) {
            Some(port) => found == Some((port.parent_id, port.id)),
            None => found is None,
        },
{
    let ports = block.ports_opposite(my_type);
    let ghost views = block@.ports(my_type.opposite());
    let mut found: Option<(Id, Id)> = None;
    let mut k: usize = 0;
    while k < ports.len()
        invariant
            k <= ports@.len(),
            views == crate::block::ports_view(ports@),
            match last_accepting(views, kind, under_pointer@, k as nat) {
                Some(port) => found == Some((port.parent_id, port.id)),
                None => found is None,
            },
        decreases ports@.len() - k,
    {
        let connection = &ports[k];
        assert(views[k as int] == connection@);
        if connection.value.kind() == kind && holds_id(under_pointer, connection.id) {
            found = Some((connection.parent_id, connection.id));
        }
        k += 1;
    }
    found
}

impl BlockContext {
    /// A context that holds `blocks`, in their order, and no connection.
    pub fn new(blocks: Vec<DraggableBlock>) -> (ctx: Self)
        ensures
            ctx@ == with_first_blocks(block_views(blocks@), blocks@.len()),
            ctx@.wf(),
            ctx@.runnable(),
            ctx@.in_step(),
            well_made(block_views(blocks@)) ==> wired(ctx@),
    {
        let ghost given = block_views(blocks@);
        let count = blocks.len();
        let mut turned = turned_round(blocks);
        let mut ctx = BlockContext {
            currently_dragging: None,
            blocks: Vec::new(),
            connections: Vec::new(),
            input_output: HashMap::new(),
            inputs: HashMap::new(),
            graph: Graph { nodes: Vec::new() },
            graph_order: Vec::new(),
            block_ids: HashMap::new(),
        };
        proof {
            assert(ctx@.blocks =~= Seq::empty());
            assert(ctx.graph@ =~= Seq::empty());
            assert(edges_in_range(adjacency_of(ctx.graph@)));
            assert(edges_in_range(crate::dependency_resolution::inverse_adjacency_of(ctx.graph@)));
            assert(evaluation_order(adjacency_of(ctx.graph@)) =~= Seq::<usize>::empty());
        }
        let mut i: usize = 0;
        while i < count
            invariant
                i <= count,
                given.len() == count,
                turned@.len() == count - i,
                forall|j: int|
                    0 <= j < turned@.len() ==> (#[trigger] turned@[j])@ == given[count - 1 - j],
                ctx@ == with_first_blocks(given, i as nat),
                ctx@.wf(),
                ctx@.in_step(),
            decreases count - i,
        {
            let b = turned.pop().unwrap();
            assert(b@ == given[i as int]);
            ctx.add_block(b);
            i += 1;
        }
        proof {
            assert(ctx@.graph.len() == ctx.graph.nodes.len());
            lemma_wf_runnable(ctx@);
            if well_made(given) {
                lemma_first_blocks_wired(given, given.len());
            }
        }
        ctx
    }

    /// Takes `b` in as the last block.
    pub fn add_block(&mut self, b: DraggableBlock)
        requires
            well_formed(old(self)@.graph),
        ensures
            final(self)@ == old(self)@.with_block(b@),
            old(self)@.wf() ==> final(self)@.wf() && final(self)@.runnable(),
            wired(old(self)@) && sided(b@) && (forall|i: int|
                0 <= i < old(self)@.blocks.len() && (#[trigger] old(self)@.blocks[i]) is Some
                    ==> old(self)@.blocks[i].unwrap().id != b@.id) ==> wired(final(self)@),
    {
        let mut b = b;
        let ghost given = b@;
        let b_id = b.id;
        b.adopt_ports();
        let block_index = self.blocks.len();
        let ghost before = self@;
        self.blocks.push(Some(b));
        self.graph.add(b_id.0);
        self.block_ids.insert(b_id.0, block_index);
        self.graph_order = self.graph.calculate_order_indices();
        proof {
            assert(self@.blocks =~= before.blocks.push(Some(given.adopted())));
            assert(self@.graph =~= before.graph.push(node_for(b_id, before.graph.len() as int)));
            assert(self@ == before.with_block(given));
            if wired(before) && sided(given) && (forall|i: int|
                0 <= i < before.blocks.len() && (#[trigger] before.blocks[i]) is Some
                    ==> before.blocks[i].unwrap().id != given.id) {
                assert(before.blocks.len() < self.blocks.len());
                lemma_with_block_wired(before, given);
            }
            if before.wf() {
                assert forall|i: int|
                    0 <= i < self@.blocks.len() && (#[trigger] self@.blocks[i]) is Some
                    implies self@.block_ids.contains_key(self@.blocks[i].unwrap().id.0)
                    && self@.block_ids[self@.blocks[i].unwrap().id.0] < self@.blocks.len() by {
                    if i < before.blocks.len() {
                        assert(self@.blocks[i] == before.blocks[i]);
                    }
                }
                assert forall|n: int| 0 <= n < self@.graph.len() implies self@.block_ids.contains_key(
                    (#[trigger] self@.graph[n]).value,
                ) && self@.block_ids[self@.graph[n].value] < self@.blocks.len() by {
                    if n < before.graph.len() {
                        assert(self@.graph[n] == before.graph[n]);
                    }
                }
                assert(self@.graph.len() == self.graph.nodes.len());
                lemma_wf_runnable(self@);
            }
        }
    }

    /// Makes the dependency graph and the order of evaluation anew, where
    /// connections have changed: one node for each block, and for each
    /// connected input a dependency of its block on the block that feeds
    /// it.
    pub fn update(&mut self, connections_changed: bool)
        ensures
            final(self)@ == if connections_changed {
                old(self)@.rebuilt()
            } else {
                old(self)@
            },
            old(self)@.wf() ==> final(self)@.wf() && final(self)@.runnable(),
            wired(old(self)@) ==> wired(final(self)@),
    {
        proof {
            if wired(self@) {
                lemma_rebuilt_wired(self@);
            }
        }
        if !connections_changed {
            proof {
                if self@.wf() {
                    assert(self@.graph.len() == self.graph.nodes.len());
                    lemma_wf_runnable(self@);
                }
            }
            return ;
        }
        let ghost before = self@;
        self.graph.reset();
        assert(self.graph@ =~= nodes_of_first(before.blocks, 0));
        let mut k: usize = 0;
        while k < self.blocks.len()
            invariant
                k <= self.blocks@.len(),
                self@ == (ContextView { graph: self.graph@, ..before }),
                self.graph@ == nodes_of_first(before.blocks, k as nat),
                self.graph.wf(),
            decreases self.blocks@.len() - k,
        {
            proof {
                lemma_nodes_of_blocks(before.blocks, (k + 1) as nat);
            }
            if let Some(b) = &self.blocks[k] {
                assert(before.blocks[k as int] == Some(b@));
                self.graph.add(b.id.0);
            } else {
                assert(before.blocks[k as int] is None);
            }
            k += 1;
        }
        let ghost bare = self.graph@;
        let mut k: usize = 0;
        while k < self.blocks.len()
            invariant
                k <= self.blocks@.len(),
                self@ == (ContextView { graph: self.graph@, ..before }),
                bare == nodes_of_first(before.blocks, before.blocks.len()),
                self.graph@ == linked_first_blocks(bare, before.blocks, before.inputs, k as nat),
                self.graph.wf(),
            decreases self.blocks@.len() - k,
        {
            let ghost linked = self.graph@;
            if let Some(block) = &self.blocks[k] {
                assert(before.blocks[k as int] == Some(block@));
                let mut j: usize = 0;
                while j < block.inputs.len()
                    invariant
                        j <= block.inputs@.len(),
                        block@.inputs.len() == block.inputs@.len(),
                        self@ == (ContextView { graph: self.graph@, ..before }),
                        self.graph@ == linked_first_inputs(linked, block@, before.inputs, j as nat),
                        self.graph.wf(),
                    decreases block.inputs@.len() - j,
                {
                    let input = &block.inputs[j];
                    assert(block@.inputs[j as int] == input@);
                    if let Some(parent_id) = self.inputs.get(&input.id.0) {
                        self.graph.add_dependency(block.id.0, parent_id.0);
                    }
                    j += 1;
                }
            } else {
                assert(before.blocks[k as int] is None);
            }
            k += 1;
        }
        self.graph_order = self.graph.calculate_order_indices();
        proof {
            assert(self@ == before.rebuilt());
            if before.wf() {
                lemma_nodes_of_blocks(before.blocks, before.blocks.len());
                lemma_linked_blocks_keep(bare, before.blocks, before.inputs, before.blocks.len());
                assert forall|n: int| 0 <= n < self@.graph.len() implies self@.block_ids.contains_key(
                    (#[trigger] self@.graph[n]).value,
                ) && self@.block_ids[self@.graph[n].value] < self@.blocks.len() by {
                    assert(self@.graph[n].value == bare[n].value);
                    assert(names_block(before.blocks, before.blocks.len() as int, bare[n].value));
                    let i = choose|i: int|
                        0 <= i < before.blocks.len() && (#[trigger] before.blocks[i]) is Some
                            && before.blocks[i].unwrap().id.0 == bare[n].value;
                    assert(before.block_ids.contains_key(before.blocks[i].unwrap().id.0));
                }
                assert(self@.graph.len() == self.graph.nodes.len());
                lemma_wf_runnable(self@);
            }
        }
    }

    /// Takes away the first connection that has `id` at one of its ends,
    /// if there is one.
    pub fn remove_connection(&mut self, id: Id)
        ensures
            final(self)@ == old(self)@.disconnected(id),
            wired(old(self)@) ==> wired(final(self)@),
    {
        proof {
            if wired(self@) {
                lemma_disconnected_wired(self@, id);
            }
        }
        let mut remove_key: Option<usize> = None;
        let mut k: usize = 0;
        while k < self.connections.len()
            invariant_except_break
                remove_key is None,
                first_touching(self.connections@, id, 0) == first_touching(
                    self.connections@,
                    id,
                    k as int,
                ),
            invariant
                k <= self.connections@.len(),
                self@ == old(self)@,
            ensures
                self@ == old(self)@,
                match remove_key {
                    Some(found) => first_touching(self.connections@, id, 0) == Some(found as int)
                        && found < self.connections@.len(),
                    None => first_touching(self.connections@, id, 0) is None,
                },
            decreases self.connections@.len() - k,
        {
            let ends = self.connections[k];
            if ends.0 == id || ends.1 == id {
                remove_key = Some(k);
                break ;
            }
            k += 1;
        }
        if let Some(found) = remove_key {
            let key = self.connections[found];
            self.inputs.remove(&key.0.0);
            self.inputs.remove(&key.1.0);
            self.input_output.remove(&key.0.0);
            self.input_output.remove(&key.1.0);
            self.connections.remove(found);
        }
    }

    /// Lets go of a connection that was dragged from the port `my_id`, on
    /// the side `my_type` of the block `my_parent`, over the ports
    /// `under_pointer`. The connection is made with a port across that
    /// holds a value of the same kind as `my_value_type`, unless the input
    /// at its end has a connection already.
    pub fn can_connect(
        &mut self,
        my_parent: Id,
        my_id: Id,
        my_type: ConnectionType,
        my_value_type: &InputValue,
        under_pointer: &Vec<Id>,
    )
        ensures
            final(self)@ == old(self)@.connected(
                my_parent,
                my_id,
                my_type,
                my_value_type@.kind(),
                under_pointer@,
            ),
            wired(old(self)@) && (my_type == ConnectionType::Outputs ==> feeds(
                old(self)@.blocks,
                my_parent,
                my_id,
            )) ==> wired(final(self)@),
    {
        proof {
            if wired(self@) && (my_type == ConnectionType::Outputs ==> feeds(
                self@.blocks,
                my_parent,
                my_id,
            )) {
                lemma_connected_wired(
                    self@,
                    my_parent,
                    my_id,
                    my_type,
                    my_value_type@.kind(),
                    under_pointer@,
                );
            }
        }
        let kind = my_value_type.kind();
        let mut k: usize = 0;
        while k < self.blocks.len()
            invariant
                k <= self.blocks@.len(),
                self@ == old(self)@,
                kind == my_value_type@.kind(),
                wired(old(self)@) && (my_type == ConnectionType::Outputs ==> feeds(
                    old(self)@.blocks,
                    my_parent,
                    my_id,
                )) ==> wired(old(self)@.connected(my_parent, my_id, my_type, kind, under_pointer@)),
                landing_port(self@.blocks, my_type, kind, under_pointer@, 0) == landing_port(
                    self@.blocks,
                    my_type,
                    kind,
                    under_pointer@,
                    k as int,
                ),
            decreases self.blocks@.len() - k,
        {
            if let Some(block) = &self.blocks[k] {
                assert(self@.blocks[k as int] == Some(block@));
                if let Some((connection_parent, connection_id)) = find_accepting(
                    block,
                    my_type,
                    kind,
                    under_pointer,
                ) {
                    let (input, output, parent) = match my_type {
                        ConnectionType::Inputs => (my_id, connection_id, connection_parent),
                        ConnectionType::Outputs => (connection_id, my_id, my_parent),
                    };
                    // An input has one connection at most: the one it has stays.
                    if self.inputs.contains_key(&input.0) {
                        return ;
                    }
                    self.inputs.insert(input.0, parent);
                    self.input_output.insert(input.0, output);
                    let made = (input, output);
                    if !self.holds_connection(made) {
                        self.connections.push(made);
                    }
                    return ;
                }
            } else {
                assert(self@.blocks[k as int] is None);
            }
            k += 1;
        }
    }

    /// Is `ends` among the connections?
    pub fn holds_connection(&self, ends: (Id, Id)) -> (found: bool)
        ensures
            found == self@.connections.contains(ends),
    {
        let mut k: usize = 0;
        while k < self.connections.len()
            invariant
                k <= self.connections@.len(),
                forall|j: int| 0 <= j < k ==> self.connections@[j] != ends,
            decreases self.connections@.len() - k,
        {
            let held = self.connections[k];
            if held.0 == ends.0 && held.1 == ends.1 {
                return true;
            }
            k += 1;
        }
        false
    }

    /// Takes the drag for `id`, unless something is being dragged already.
    pub fn can_drag(&mut self, id: Id) -> (granted: bool)
        ensures
            granted == (old(self)@.currently_dragging is None),
            final(self)@ == if granted {
                ContextView { currently_dragging: Some(id.0), ..old(self)@ }
            } else {
                old(self)@
            },
    {
        if self.currently_dragging.is_none() {
            self.currently_dragging = Some(id.0);
            return true;
        }
        false
    }

    /// Gives the drag back, if `id` is what holds it.
    pub fn release_drag(&mut self, id: Id)
        ensures
            final(self)@ == if old(self)@.currently_dragging == Some(id.0) {
                ContextView { currently_dragging: None, ..old(self)@ }
            } else {
                old(self)@
            },
    {
        if let Some(previous_address) = self.currently_dragging {
            if previous_address == id.0 {
                self.currently_dragging = None;
            }
        }
    }
}

} // verus!

//! Blocks and their ports.

use crate::id::{Id, IdAllocator};
use crate::value::{InputValue, ValueView};
use vstd::prelude::*;

verus! {

/// The side of a block on which a port sits.
#[derive(Clone, Copy, Debug, PartialEq, Eq, Structural)]
pub enum ConnectionType {
    Inputs,
    Outputs,
}

impl ConnectionType {
    /// The other side.
    pub open spec fn opposite(self) -> ConnectionType {
        match self {
            ConnectionType::Inputs => ConnectionType::Outputs,
            ConnectionType::Outputs => ConnectionType::Inputs,
        }
    }
}

/// A port of a block.
pub struct BlockConnectionNode {
    pub id: Id,
    /// The block that owns the port.
    pub parent_id: Id,
    pub name: String,
    /// The value of an input that nothing is connected to. Its kind is the
    /// kind of the port.
    pub value: InputValue,
    pub connection_type: ConnectionType,
    pub is_being_hovered: bool,
    pub is_dragging_line: bool,
}

/// The mathematical content of a [`BlockConnectionNode`].
pub ghost struct PortView {
    pub id: Id,
    pub parent_id: Id,
    pub name: Seq<char>,
    pub value: ValueView,
    pub connection_type: ConnectionType,
    pub is_being_hovered: bool,
    pub is_dragging_line: bool,
}

impl View for BlockConnectionNode {
    type V = PortView;

    open spec fn view(&self) -> PortView {
        PortView {
            id: self.id,
            parent_id: self.parent_id,
            name: self.name@,
            value: self.value@,
            connection_type: self.connection_type,
            is_being_hovered: self.is_being_hovered,
            is_dragging_line: self.is_dragging_line,
        }
    }
}

/// The ports of a list, each as its content.
pub open spec fn ports_view(ports: Seq<BlockConnectionNode>) -> Seq<PortView> {
    Seq::new(ports.len(), |k: int| ports[k]@)
}

impl BlockConnectionNode {
    /// A port named `s` that holds the number zero.
    pub fn new(s: &str, connection_type: ConnectionType, ids: &mut IdAllocator) -> (port: Self)
        requires
            old(ids).next_id() < usize::MAX,
        ensures
            final(ids).next_id() == old(ids).next_id() + 1,
            port@ == (PortView {
                id: Id(old(ids).next_id()),
                parent_id: Id(0),
                name: s@,
                value: ValueView::Number(0),
                connection_type,
                is_being_hovered: false,
                is_dragging_line: false,
            }),
    {
        Self::new_with_input_type(s, InputValue::Number(0), connection_type, ids)
    }

    /// A port named `s` that holds `input_type`.
    pub fn new_with_input_type(
        s: &str,
        input_type: InputValue,
        connection_type: ConnectionType,
        ids: &mut IdAllocator,
    ) -> (port: Self)
        requires
            old(ids).next_id() < usize::MAX,
        ensures
            final(ids).next_id() == old(ids).next_id() + 1,
            port@ == (PortView {
                id: Id(old(ids).next_id()),
                parent_id: Id(0),
                name: s@,
                value: input_type@,
                connection_type,
                is_being_hovered: false,
                is_dragging_line: false,
            }),
    {
        BlockConnectionNode {
            value: input_type,
            connection_type,
            id: ids.get_id(),
            parent_id: Id(0),
            name: s.to_string(),
            is_being_hovered: false,
            is_dragging_line: false,
        }
    }
}

/// A node of the evaluation graph: named ports in, named ports out.
pub struct DraggableBlock {
    pub id: Id,
    pub name: String,
    /// Whether an input that receives a sequence of values is handed to the
    /// block as one list, in a single run.
    pub flatten_inputs: bool,
    /// Where the pointer took hold of the block, while it is being dragged.
    pub being_dragged_from: Option<(u32, u32)>,
    pub inputs: Vec<BlockConnectionNode>,
    pub outputs: Vec<BlockConnectionNode>,
}

/// The mathematical content of a [`DraggableBlock`].
pub ghost struct BlockView {
    pub id: Id,
    pub name: Seq<char>,
    pub flatten_inputs: bool,
    pub being_dragged_from: Option<(u32, u32)>,
    pub inputs: Seq<PortView>,
    pub outputs: Seq<PortView>,
}

impl View for DraggableBlock {
    type V = BlockView;

    open spec fn view(&self) -> BlockView {
        BlockView {
            id: self.id,
            name: self.name@,
            flatten_inputs: self.flatten_inputs,
            being_dragged_from: self.being_dragged_from,
            inputs: ports_view(self.inputs@),
            outputs: ports_view(self.outputs@),
        }
    }
}

impl BlockView {
    /// The ports on the side `connection_type`.
    pub open spec fn ports(self, connection_type: ConnectionType) -> Seq<PortView> {
        match connection_type {
            ConnectionType::Inputs => self.inputs,
            ConnectionType::Outputs => self.outputs,
        }
    }

    /// The block with every port marked as its own.
    pub open spec fn adopted(self) -> BlockView {
        BlockView {
            inputs: Seq::new(
                self.inputs.len(),
                |k: int| PortView { parent_id: self.id, ..self.inputs[k] },
            ),
            outputs: Seq::new(
                self.outputs.len(),
                |k: int| PortView { parent_id: self.id, ..self.outputs[k] },
            ),
            ..self
        }
    }
}

impl DraggableBlock {
    /// A block without a name and without ports.
    pub fn new(ids: &mut IdAllocator) -> (block: Self)
        requires
            old(ids).next_id() < usize::MAX,
        ensures
            final(ids).next_id() == old(ids).next_id() + 1,
            block@ == (BlockView {
                id: Id(old(ids).next_id()),
                name: Seq::empty(),
                flatten_inputs: false,
                being_dragged_from: None,
                inputs: Seq::empty(),
                outputs: Seq::empty(),
            }),
    {
        let block = DraggableBlock {
            id: ids.get_id(),
            name: String::new(),
            flatten_inputs: false,
            being_dragged_from: None,
            inputs: Vec::new(),
            outputs: Vec::new(),
        };
        assert(ports_view(block.inputs@) =~= Seq::empty());
        assert(ports_view(block.outputs@) =~= Seq::empty());
        block
    }

    /// The name of the block.
    pub fn get_text(&self) -> (text: &str)
        ensures
            text@ == self@.name,
    {
        self.name.as_str()
    }

    /// The ports on the side `connection_type`.
    pub fn ports(&self, connection_type: ConnectionType) -> (ports: &Vec<BlockConnectionNode>)
        ensures
            ports_view(ports@) == self@.ports(connection_type),
    {
        match connection_type {
            ConnectionType::Inputs => &self.inputs,
            ConnectionType::Outputs => &self.outputs,
        }
    }

    /// The ports on the side across from `connection_type`.
    pub fn ports_opposite(&self, connection_type: ConnectionType) -> (ports: &Vec<
        BlockConnectionNode,
    >)
        ensures
            ports_view(ports@) == self@.ports(connection_type.opposite()),
    {
        match connection_type {
            ConnectionType::Outputs => &self.inputs,
            ConnectionType::Inputs => &self.outputs,
        }
    }

    /// Marks every port of the block as its own.
    pub fn adopt_ports(&mut self)
        ensures
            final(self)@ == old(self)@.adopted(),
    {
        let id = self.id;
        let mut k: usize = 0;
        while k < self.inputs.len()
            invariant
                k <= self.inputs@.len(),
                self.id == id,
                self.id == old(self).id,
                self.name == old(self).name,
                self.flatten_inputs == old(self).flatten_inputs,
                self.being_dragged_from == old(self).being_dragged_from,
                self.outputs == old(self).outputs,
                self.inputs@.len() == old(self).inputs@.len(),
                forall|j: int|
                    0 <= j < k ==> (#[trigger] self.inputs@[j])@ == (PortView {
                        parent_id: id,
                        ..old(self).inputs@[j]@
                    }),
                forall|j: int|
                    k <= j < self.inputs@.len() ==> #[trigger] self.inputs@[j] == old(
                        self,
                    ).inputs@[j],
            decreases self.inputs@.len() - k,
        {
            self.inputs[k].parent_id = id;
            k += 1;
        }
        let mut k: usize = 0;
        while k < self.outputs.len()
            invariant
                k <= self.outputs@.len(),
                self.id == id,
                self.id == old(self).id,
                self.name == old(self).name,
                self.flatten_inputs == old(self).flatten_inputs,
                self.being_dragged_from == old(self).being_dragged_from,
                ports_view(self.inputs@) == old(self)@.adopted().inputs,
                self.outputs@.len() == old(self).outputs@.len(),
                forall|j: int|
                    0 <= j < k ==> (#[trigger] self.outputs@[j])@ == (PortView {
                        parent_id: id,
                        ..old(self).outputs@[j]@
                    }),
                forall|j: int|
                    k <= j < self.outputs@.len() ==> #[trigger] self.outputs@[j] == old(
                        self,
                    ).outputs@[j],
            decreases self.outputs@.len() - k,
        {
            self.outputs[k].parent_id = id;
            k += 1;
        }
        assert(ports_view(self.outputs@) =~= old(self)@.adopted().outputs);
    }
}

} // verus!

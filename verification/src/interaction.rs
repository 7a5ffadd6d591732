//! What the pointer does to blocks, ports and connections.
//!
//! Where the pointer is, and which ports lie under it, is found outside of
//! this library. What follows from it is decided here: who may be dragged,
//! which connection is taken away, which one is made.

use crate::block::{BlockConnectionNode, BlockView, ConnectionType, DraggableBlock, PortView};
use crate::context::{holds_id, BlockContext, ContextView};
use crate::id::Id;
use crate::wiring::{lemma_block_dragged_wired, lemma_block_updated_wired, wired};
use vstd::prelude::*;

verus! {

/// The pointer in one frame.
pub struct PointerState {
    /// The button went down in this frame.
    pub pressed: bool,
    /// The button is down.
    pub down: bool,
    /// The button went up in this frame.
    pub released: bool,
    /// The ports that the pointer is on.
    pub ports_under: Vec<Id>,
}

/// The mathematical content of a [`PointerState`].
pub ghost struct PointerView {
    pub pressed: bool,
    pub down: bool,
    pub released: bool,
    pub ports_under: Seq<Id>,
}

impl View for PointerState {
    type V = PointerView;

    open spec fn view(&self) -> PointerView {
        PointerView {
            pressed: self.pressed,
            down: self.down,
            released: self.released,
            ports_under: self.ports_under@,
        }
    }
}

/// Which end of a connection moves along with a block.
#[derive(Clone, Copy, Debug, PartialEq, Eq, Structural)]
pub enum MovedEnd {
    First,
    Second,
    Neither,
}

/// The end of the connection `ends` that moves with the block whose ports
/// are `ids`: the first end if it is a port of the block, else the second
/// end if that is one.
pub open spec fn moved_end(ends: (Id, Id), ids: Seq<Id>) -> MovedEnd {
    if ids.contains(ends.0) {
        MovedEnd::First
    } else if ids.contains(ends.1) {
        MovedEnd::Second
    } else {
        MovedEnd::Neither
    }
}

impl ContextView {
    /// The context with the block at `index` taken out.
    pub open spec fn without(self, index: int) -> ContextView {
        ContextView { blocks: self.blocks.update(index, None), ..self }
    }

    /// The context with `block` at `index`.
    pub open spec fn with_block_at(self, index: int, block: BlockView) -> ContextView {
        ContextView { blocks: self.blocks.update(index, Some(block)), ..self }
    }

    /// The context after the pointer has had its say on dragging the block
    /// at `index`. The block is taken out of the context for the time.
    pub open spec fn block_dragged(
        self,
        index: int,
        grip: Option<(u32, u32)>,
        pointer: PointerView,
    ) -> ContextView {
        match self.blocks[index] {
            None => self,
            Some(block) => {
                let (after, context) = block.drag_updated(grip, pointer, self.without(index));
                context.with_block_at(index, after)
            },
        }
    }

    /// The context after each port of the block at `index` had its frame,
    /// and whether a connection may have changed. The block is taken out of
    /// the context for the time, so that none of its ports is joined with
    /// another of its ports.
    pub open spec fn block_updated(self, index: int, pointer: PointerView) -> (ContextView, bool) {
        match self.blocks[index] {
            None => (self, false),
            Some(block) => {
                let (after, context, changed) = block.updated(pointer, self.without(index));
                (context.with_block_at(index, after), changed)
            },
        }
    }

    /// The context after `id` asked for the drag.
    pub open spec fn grabbed(self, id: Id) -> ContextView {
        if self.currently_dragging is None {
            ContextView { currently_dragging: Some(id.0), ..self }
        } else {
            self
        }
    }

    /// The context after `id` gave the drag back.
    pub open spec fn let_go(self, id: Id) -> ContextView {
        if self.currently_dragging == Some(id.0) {
            ContextView { currently_dragging: None, ..self }
        } else {
            self
        }
    }
}

impl PortView {
    /// The port and the context after the button went down with the
    /// pointer on the port, and whether a connection may have changed: the
    /// port takes the drag if it is free and begins a connection; an input
    /// first lets go of the connection that it has.
    pub open spec fn pressed(self, ctx: ContextView) -> (PortView, ContextView, bool) {
        if ctx.currently_dragging is None {
            let dragging = PortView { is_dragging_line: true, ..self };
            if self.connection_type == ConnectionType::Inputs {
                (dragging, ctx.grabbed(self.id).disconnected(self.id), true)
            } else {
                (dragging, ctx.grabbed(self.id), false)
            }
        } else {
            (self, ctx, false)
        }
    }

    /// The port and the context after the button went up, and whether a
    /// connection may have changed: the port gives the drag back, and the
    /// connection that it began, if any, is made with what lies under the
    /// pointer.
    pub open spec fn released(self, ctx: ContextView, ports_under: Seq<Id>) -> (
        PortView,
        ContextView,
        bool,
    ) {
        let free = ctx.let_go(self.id);
        let idle = PortView { is_dragging_line: false, ..self };
        if self.is_dragging_line {
            (
                idle,
                free.connected(
                    self.parent_id,
                    self.id,
                    self.connection_type,
                    self.value.kind(),
                    ports_under,
                ),
                true,
            )
        } else {
            (idle, free, false)
        }
    }

    /// The port and the context after one frame, and whether a connection
    /// may have changed.
    pub open spec fn updated(self, pointer: PointerView, ctx: ContextView) -> (
        PortView,
        ContextView,
        bool,
    ) {
        let over = pointer.ports_under.contains(self.id);
        let hovered = PortView { is_being_hovered: over, ..self };
        let (port, context, changed) = if over && pointer.pressed {
            hovered.pressed(ctx)
        } else {
            (hovered, ctx, false)
        };
        if pointer.released {
            let (after, after_context, connected) = port.released(context, pointer.ports_under);
            (after, after_context, changed || connected)
        } else {
            (port, context, changed)
        }
    }
}

/// The first `count` of `ports` and the context after one frame, each port
/// in its turn, and whether a connection may have changed.
pub open spec fn ports_updated(
    ports: Seq<PortView>,
    pointer: PointerView,
    ctx: ContextView,
    count: nat,
) -> (Seq<PortView>, ContextView, bool)
    decreases count,
{
    if count == 0 {
        (ports, ctx, false)
    } else {
        let (before, before_context, changed) = ports_updated(ports, pointer, ctx, (count - 1) as nat);
        let (port, context, now) = before[count - 1].updated(pointer, before_context);
        (before.update(count - 1, port), context, changed || now)
    }
}

impl BlockView {
    /// The block and the context after the pointer has had its say on
    /// dragging the block. `grip` is where on the block the pointer is, if
    /// it is on the block. A block that is not dragged yet takes the drag
    /// when the button is down on it and the drag is free; it gives the
    /// drag back when the button goes up.
    pub open spec fn drag_updated(
        self,
        grip: Option<(u32, u32)>,
        pointer: PointerView,
        ctx: ContextView,
    ) -> (BlockView, ContextView) {
        let (held, context) = if grip is Some && self.being_dragged_from is None && pointer.down
            && ctx.currently_dragging is None {
            (BlockView { being_dragged_from: grip, ..self }, ctx.grabbed(self.id))
        } else {
            (self, ctx)
        };
        if pointer.released {
            (BlockView { being_dragged_from: None, ..held }, context.let_go(self.id))
        } else {
            (held, context)
        }
    }

    /// The block and the context after each port of the block had its
    /// frame, the inputs before the outputs, and whether a connection may
    /// have changed.
    pub open spec fn updated(self, pointer: PointerView, ctx: ContextView) -> (
        BlockView,
        ContextView,
        bool,
    ) {
        let (inputs, between, first) = ports_updated(self.inputs, pointer, ctx, self.inputs.len());
        let (outputs, after, second) = ports_updated(
            self.outputs,
            pointer,
            between,
            self.outputs.len(),
        );
        (BlockView { inputs, outputs, ..self }, after, first || second)
    }

    /// The identities of the ports of the block: inputs, then outputs.
    pub open spec fn port_ids(self) -> Seq<Id> {
        Seq::new(self.inputs.len(), |k: int| self.inputs[k].id) + Seq::new(
            self.outputs.len(),
            |k: int| self.outputs[k].id,
        )
    }
}

/// A frame of ports leaves the blocks of the context as they are, and the
/// ports in their places.
pub proof fn lemma_ports_updated_keep_blocks(
    ports: Seq<PortView>,
    pointer: PointerView,
    ctx: ContextView,
    count: nat,
)
    requires
        count <= ports.len(),
    ensures
        ports_updated(ports, pointer, ctx, count).1.blocks == ctx.blocks,
        ports_updated(ports, pointer, ctx, count).0.len() == ports.len(),
    decreases count,
{
    if count > 0 {
        lemma_ports_updated_keep_blocks(ports, pointer, ctx, (count - 1) as nat);
    }
}

impl BlockConnectionNode {
    /// One frame of the port. Returns whether a connection may have
    /// changed.
    pub fn update(&mut self, pointer: &PointerState, block_context: &mut BlockContext) -> (changed:
        bool)
        ensures
            (final(self)@, final(block_context)@, changed) == old(self)@.updated(
                pointer@,
                old(block_context)@,
            ),
    {
        let mut connections_changed = false;
        if holds_id(&pointer.ports_under, self.id) {
            self.is_being_hovered = true;
            if pointer.pressed {
                if block_context.can_drag(self.id) {
                    self.is_dragging_line = true;
                    // An input has one connection at most: to pull a new
                    // one from it breaks the one that it has.
                    if self.connection_type == ConnectionType::Inputs {
                        block_context.remove_connection(self.id);
                        connections_changed = true;
                    }
                }
            }
        } else {
            self.is_being_hovered = false;
        }
        if pointer.released {
            block_context.release_drag(self.id);
            if self.is_dragging_line {
                block_context.can_connect(
                    self.parent_id,
                    self.id,
                    self.connection_type,
                    &self.value,
                    &pointer.ports_under,
                );
                connections_changed = true;
            }
            self.is_dragging_line = false;
        }
        connections_changed
    }
}

/// One frame of each of `ports`, in their order. Returns whether a
/// connection may have changed.
pub fn update_ports(
    ports: &mut Vec<BlockConnectionNode>,
    pointer: &PointerState,
    block_context: &mut BlockContext,
) -> (changed: bool)
    ensures
        (crate::block::ports_view(final(ports)@), final(block_context)@, changed) == ports_updated(
            crate::block::ports_view(old(ports)@),
            pointer@,
            old(block_context)@,
            old(ports)@.len(),
        ),
{
    let ghost given = crate::block::ports_view(ports@);
    let ghost begun = block_context@;
    let mut needs_update = false;
    let mut k: usize = 0;
    while k < ports.len()
        invariant
            k <= ports@.len(),
            ports@.len() == given.len(),
            (crate::block::ports_view(ports@), block_context@, needs_update) == ports_updated(
                given,
                pointer@,
                begun,
                k as nat,
            ),
        decreases ports@.len() - k,
    {
        let ghost before = crate::block::ports_view(ports@);
        assert(before[k as int] == ports@[k as int]@);
        let mut port = &mut ports[k];
        if port.update(pointer, block_context) {
            needs_update = true;
        }
        assert(crate::block::ports_view(ports@) =~= before.update(k as int, ports@[k as int]@));
        k += 1;
    }
    needs_update
}

impl DraggableBlock {
    /// The pointer's say on dragging the block. `grip` is where on the
    /// block the pointer is, if it is on the block.
    pub fn update_drag(
        &mut self,
        grip: Option<(u32, u32)>,
        pointer: &PointerState,
        block_context: &mut BlockContext,
    )
        ensures
            (final(self)@, final(block_context)@) == old(self)@.drag_updated(
                grip,
                pointer@,
                old(block_context)@,
            ),
    {
        if let Some(offset) = grip {
            if self.being_dragged_from.is_none() && pointer.down {
                if block_context.can_drag(self.id) {
                    self.being_dragged_from = Some(offset);
                }
            }
        }
        if pointer.released {
            block_context.release_drag(self.id);
            self.being_dragged_from = None;
        }
    }

    /// One frame of each port of the block, the inputs before the outputs.
    /// Returns whether a connection may have changed.
    pub fn update(&mut self, pointer: &PointerState, block_context: &mut BlockContext) -> (changed:
        bool)
        ensures
            (final(self)@, final(block_context)@, changed) == old(self)@.updated(
                pointer@,
                old(block_context)@,
            ),
    {
        let first = update_ports(&mut self.inputs, pointer, block_context);
        let second = update_ports(&mut self.outputs, pointer, block_context);
        first || second
    }

    /// The identities of the ports of the block: inputs, then outputs.
    pub fn port_ids(&self) -> (ids: Vec<Id>)
        ensures
            ids@ == self@.port_ids(),
    {
        let mut ids: Vec<Id> = Vec::new();
        let mut k: usize = 0;
        while k < self.inputs.len()
            invariant
                k <= self.inputs@.len(),
                ids@.len() == k,
                forall|j: int| 0 <= j < k ==> ids@[j] == self.inputs@[j].id,
            decreases self.inputs@.len() - k,
        {
            ids.push(self.inputs[k].id);
            k += 1;
        }
        let mut k: usize = 0;
        while k < self.outputs.len()
            invariant
                k <= self.outputs@.len(),
                ids@.len() == self.inputs@.len() + k,
                forall|j: int| 0 <= j < self.inputs@.len() ==> ids@[j] == self.inputs@[j].id,
                forall|j: int| 0 <= j < k ==> ids@[self.inputs@.len() + j] == self.outputs@[j].id,
            decreases self.outputs@.len() - k,
        {
            ids.push(self.outputs[k].id);
            k += 1;
        }
        assert(ids@ =~= self@.port_ids());
        ids
    }
}

impl BlockContext {
    /// The pointer's say on dragging the block at `index`. `grip` is where
    /// on the block the pointer is, if it is on the block.
    pub fn drag_block(&mut self, index: usize, grip: Option<(u32, u32)>, pointer: &PointerState)
        requires
            index < old(self)@.blocks.len(),
        ensures
            final(self)@ == old(self)@.block_dragged(index as int, grip, pointer@),
            wired(old(self)@) ==> wired(final(self)@),
    {
        let ghost before = self@;
        proof {
            if wired(before) {
                lemma_block_dragged_wired(before, index as int, grip, pointer@);
            }
        }
        let taken = self.blocks[index].take();
        assert(self@ == before.without(index as int)) by {
            assert(self@.blocks =~= before.blocks.update(index as int, None));
        }
        match taken {
            Some(block) => {
                let mut block = block;
                assert(before.blocks[index as int] == Some(block@));
                block.update_drag(grip, pointer, self);
                let ghost between = self@;
                let ghost after = block@;
                assert(between.blocks == before.without(index as int).blocks);
                assert(self.blocks@.len() == between.blocks.len());
                self.blocks[index] = Some(block);
                assert(self@ == between.with_block_at(index as int, after)) by {
                    assert(self@.blocks =~= between.blocks.update(index as int, Some(after)));
                }
            },
            None => {
                assert(before.blocks[index as int] is None);
                assert(self@.blocks =~= before.blocks);
            },
        }
    }

    /// One frame of each port of the block at `index`, the inputs before the
    /// outputs. Returns whether a connection may have changed.
    pub fn update_block(&mut self, index: usize, pointer: &PointerState) -> (changed: bool)
        requires
            index < old(self)@.blocks.len(),
        ensures
            (final(self)@, changed) == old(self)@.block_updated(index as int, pointer@),
            wired(old(self)@) ==> wired(final(self)@),
    {
        let ghost before = self@;
        proof {
            if wired(before) {
                lemma_block_updated_wired(before, index as int, pointer@);
            }
        }
        let taken = self.blocks[index].take();
        assert(self@ == before.without(index as int)) by {
            assert(self@.blocks =~= before.blocks.update(index as int, None));
        }
        match taken {
            Some(block) => {
                let mut block = block;
                assert(before.blocks[index as int] == Some(block@));
                proof {
                    let apart = before.without(index as int);
                    lemma_ports_updated_keep_blocks(
                        block@.inputs,
                        pointer@,
                        apart,
                        block@.inputs.len(),
                    );
                    lemma_ports_updated_keep_blocks(
                        block@.outputs,
                        pointer@,
                        ports_updated(block@.inputs, pointer@, apart, block@.inputs.len()).1,
                        block@.outputs.len(),
                    );
                }
                let changed = block.update(pointer, self);
                let ghost between = self@;
                let ghost after = block@;
                assert(between.blocks == before.without(index as int).blocks);
                assert(self.blocks@.len() == between.blocks.len());
                self.blocks[index] = Some(block);
                assert(self@ == between.with_block_at(index as int, after)) by {
                    assert(self@.blocks =~= between.blocks.update(index as int, Some(after)));
                }
                changed
            },
            None => {
                assert(before.blocks[index as int] is None);
                assert(self@.blocks =~= before.blocks);
                false
            },
        }
    }

    /// For each connection, in their order, the end that moves along with
    /// the block whose ports are `ids`.
    pub fn update_connection_positions(&self, ids: &Vec<Id>) -> (ends: Vec<MovedEnd>)
        ensures
            ends@ == Seq::new(
                self@.connections.len(),
                |k: int| moved_end(self@.connections[k], ids@),
            ),
    {
        let mut ends: Vec<MovedEnd> = Vec::new();
        let mut k: usize = 0;
        while k < self.connections.len()
            invariant
                k <= self.connections@.len(),
                ends@.len() == k,
                forall|j: int| 0 <= j < k ==> ends@[j] == moved_end(self.connections@[j], ids@),
            decreases self.connections@.len() - k,
        {
            let (id_a, id_b) = self.connections[k];
            if holds_id(ids, id_a) {
                ends.push(MovedEnd::First);
            } else if holds_id(ids, id_b) {
                ends.push(MovedEnd::Second);
            } else {
                ends.push(MovedEnd::Neither);
            }
            k += 1;
        }
        assert(ends@ =~= Seq::new(
            self@.connections.len(),
            |k: int| moved_end(self@.connections[k], ids@),
        ));
        ends
    }
}

} // verus!

//! Why a block finds what it depends on.
//!
//! Blocks are wired when they can be told apart, own their ports, and every
//! connected input is fed by an output that one of them has. What the
//! library does to blocks and connections leaves them wired. The graph of
//! wired blocks holds a dependency for each connection, so that a block
//! stands in the order of evaluation behind every block that feeds it, as
//! long as the blocks do not feed each other in a circle. In a pass over
//! such blocks no input finds its output missing.

use crate::block::{BlockView, ConnectionType, PortView};
use crate::context::{
    graph_of, landing_port, lemma_landing_port, lemma_linked_blocks_keep,
    lemma_linked_inputs_keep, lemma_nodes_of_blocks, linked_first_blocks, linked_first_inputs,
    node_for, nodes_of_first, with_first_blocks, ContextView,
};
use crate::dependency_resolution::{
    acyclic, adjacency_of, evaluation_order, first_with_value, lemma_acyclic_order_valid,
    lemma_first_with_value_in_range, lemma_mentions_push, lemma_order_permutes, mentions,
    stands_before, well_formed, with_value_dependency, NodeView,
};
use crate::evaluation::{
    after_event, bounded, flatten_first, lemma_last_sequence, lemma_prepared_uniform, pass_wf,
    prepare, record_first, record_one, replay, resolve_first, seek, step, ActionView, EvalError,
    EventView, PassView, Phase,
};
use crate::id::Id;
use crate::interaction::{ports_updated, PointerView};
use crate::value::{OutputView, ValueKind};
use vstd::prelude::*;

verus! {

/// The handle of the node that stands for the block at the place `i`: as many
/// nodes stand before it as blocks before the place.
pub open spec fn node_of(blocks: Seq<Option<BlockView>>, i: int) -> int {
    nodes_of_first(blocks, i as nat).len() as int
}

/// No two blocks carry the same identity.
pub open spec fn distinct_blocks(blocks: Seq<Option<BlockView>>) -> bool {
    forall|i: int, j: int|
        0 <= i < j < blocks.len() && (#[trigger] blocks[i]) is Some && (#[trigger] blocks[j]) is Some
            ==> blocks[i].unwrap().id != blocks[j].unwrap().id
}

/// Two lists of nodes of one length whose nodes carry the same.
pub open spec fn same_values(first: Seq<NodeView<usize>>, second: Seq<NodeView<usize>>) -> bool {
    &&& first.len() == second.len()
    &&& forall|n: int| 0 <= n < first.len() ==> (#[trigger] first[n]).value == second[n].value
}

/// The block `owner` is among `blocks` and has the output `output`.
pub open spec fn feeds(blocks: Seq<Option<BlockView>>, owner: Id, output: Id) -> bool {
    exists|p: int, m: int|
        0 <= p < blocks.len() && blocks[p] is Some && blocks[p].unwrap().id == owner && 0 <= m
            < blocks[p].unwrap().outputs.len() && (#[trigger] blocks[p].unwrap().outputs[m]).id
            == output
}

/// The input `k` of the block at the place `b` is fed by an output of one
/// of the blocks.
pub open spec fn fed_by_block(ctx: ContextView, b: int, k: int) -> bool {
    let port = ctx.blocks[b].unwrap().inputs[k];
    &&& ctx.inputs.contains_key(port.id.0)
    &&& feeds(ctx.blocks, ctx.inputs[port.id.0], ctx.input_output[port.id.0])
}

/// Every port of `block` is marked as the block's own and knows the side
/// that it is on.
pub open spec fn owns_ports(block: BlockView) -> bool {
    &&& forall|k: int|
        0 <= k < block.inputs.len() ==> (#[trigger] block.inputs[k]).parent_id == block.id
            && block.inputs[k].connection_type == ConnectionType::Inputs
    &&& forall|m: int|
        0 <= m < block.outputs.len() ==> (#[trigger] block.outputs[m]).parent_id == block.id
            && block.outputs[m].connection_type == ConnectionType::Outputs
}

/// Every port of `block` knows the side that it is on.
pub open spec fn sided(block: BlockView) -> bool {
    &&& forall|k: int|
        0 <= k < block.inputs.len() ==> (#[trigger] block.inputs[k]).connection_type
            == ConnectionType::Inputs
    &&& forall|m: int|
        0 <= m < block.outputs.len() ==> (#[trigger] block.outputs[m]).connection_type
            == ConnectionType::Outputs
}

/// The blocks of a list carry different identities, and their ports know
/// their sides.
pub open spec fn well_made(blocks: Seq<BlockView>) -> bool {
    &&& blocks.len() <= usize::MAX
    &&& forall|i: int| 0 <= i < blocks.len() ==> sided(#[trigger] blocks[i])
    &&& forall|i: int, j: int|
        0 <= i < j < blocks.len() ==> (#[trigger] blocks[i]).id != (#[trigger] blocks[j]).id
}

/// The blocks are wired: they carry different identities and can be found
/// by them, their ports are their own, and every connected input is fed by
/// an output of one of them.
pub open spec fn wired(ctx: ContextView) -> bool {
    &&& ctx.blocks.len() <= usize::MAX
    &&& distinct_blocks(ctx.blocks)
    &&& forall|b: int|
        0 <= b < ctx.blocks.len() && (#[trigger] ctx.blocks[b]) is Some
            ==> ctx.block_ids.contains_key(ctx.blocks[b].unwrap().id.0)
            && ctx.block_ids[ctx.blocks[b].unwrap().id.0] == b && owns_ports(
            ctx.blocks[b].unwrap(),
        )
    &&& ctx.in_step()
    &&& forall|i: usize| #[trigger]
        ctx.input_output.contains_key(i) ==> feeds(ctx.blocks, ctx.inputs[i], ctx.input_output[i])
}

/// The blocks are wired soundly: they carry different identities and can be
/// found by them, the graph and the order of evaluation are those of the
/// blocks and their connections, no blocks feed each other in a circle, and
/// every connected input is fed by an output of a block.
pub open spec fn soundly_wired(ctx: ContextView) -> bool {
    &&& ctx.blocks.len() <= usize::MAX
    &&& distinct_blocks(ctx.blocks)
    &&& ctx.graph == graph_of(ctx.blocks, ctx.inputs)
    &&& ctx.graph_order == evaluation_order(adjacency_of(ctx.graph))
    &&& acyclic(adjacency_of(ctx.graph))
    &&& forall|b: int|
        0 <= b < ctx.blocks.len() && (#[trigger] ctx.blocks[b]) is Some
            ==> ctx.block_ids.contains_key(ctx.blocks[b].unwrap().id.0)
            && ctx.block_ids[ctx.blocks[b].unwrap().id.0] == b
    &&& forall|b: int, k: int|
        0 <= b < ctx.blocks.len() && ctx.blocks[b] is Some && 0 <= k
            < ctx.blocks[b].unwrap().inputs.len() && ctx.input_output.contains_key(
            (#[trigger] ctx.blocks[b].unwrap().inputs[k]).id.0,
        ) ==> fed_by_block(ctx, b, k)
}

/// Two blocks that differ in nothing but what the pointer does to them.
pub open spec fn same_frame(first: BlockView, second: BlockView) -> bool {
    &&& first.id == second.id
    &&& same_ports(first.inputs, second.inputs)
    &&& same_ports(first.outputs, second.outputs)
}

/// Two lists of ports that differ in nothing but what the pointer does to
/// the ports.
pub open spec fn same_ports(first: Seq<PortView>, second: Seq<PortView>) -> bool {
    &&& first.len() == second.len()
    &&& forall|k: int|
        0 <= k < first.len() ==> (#[trigger] first[k]).id == second[k].id && first[k].parent_id
            == second[k].parent_id && first[k].connection_type == second[k].connection_type
            && first[k].value == second[k].value
}

/// Every output of `block` holds something.
pub open spec fn holds_outputs_of(outputs: Map<usize, OutputView>, block: BlockView) -> bool {
    forall|m: int|
        0 <= m < block.outputs.len() ==> outputs.contains_key((#[trigger] block.outputs[m]).id.0)
}

/// No output holds an empty sequence.
pub open spec fn nonempty(outputs: Map<usize, OutputView>) -> bool {
    forall|id: usize| outputs.contains_key(id) ==> (#[trigger] outputs[id]).elements().len() > 0
}

/// The block at the place `position` of the order, if there is one.
pub open spec fn block_at(ctx: ContextView, position: int) -> Option<BlockView> {
    ctx.blocks[ctx.block_index_at(position) as int]
}

/// Every output of every block that stands before `position` in the order
/// holds something.
pub open spec fn done_before(
    ctx: ContextView,
    outputs: Map<usize, OutputView>,
    position: int,
) -> bool {
    forall|q: int|
        0 <= q < position && q < ctx.graph_order.len() && (#[trigger] block_at(ctx, q)) is Some
            ==> holds_outputs_of(outputs, block_at(ctx, q).unwrap())
}

/// The pass is on its course: what is held is of a size that a machine can
/// hold and is not empty, every block that has had its turn has left
/// something for each of its outputs, and so has the block that is being
/// called, once it has returned. A pass that has failed has not failed for
/// want of an output.
pub open spec fn on_course(ctx: ContextView, pass: PassView) -> bool {
    &&& bounded(pass.outputs)
    &&& nonempty(pass.outputs)
    &&& match pass.phase {
        Phase::Idle => true,
        Phase::Calling => {
            &&& pass_wf(ctx, pass)
            &&& pass.block_index == ctx.block_index_at(pass.position as int)
            &&& done_before(ctx, pass.outputs, pass.position as int)
            &&& pass.iteration >= 1 ==> holds_outputs_of(
                pass.outputs,
                ctx.blocks[pass.block_index as int].unwrap(),
            )
        },
        Phase::Finished => true,
        Phase::Failed(e) => !(e is MissingOutput),
    }
}

/// The pass is told what it may be told, and the block that returns obliges:
/// it returns something for each of its outputs, and no empty sequence.
pub open spec fn obliging(ctx: ContextView, pass: PassView, event: EventView) -> bool {
    pass.phase is Calling ==> (event matches EventView::Returned(Some(results)) && results.len()
        == ctx.blocks[pass.block_index as int].unwrap().outputs.len() && forall|m: int|
        0 <= m < results.len() ==> (#[trigger] results[m]).elements().len() > 0)
}

/// The events are such that at each step of the pass the block that returns
/// obliges, and what is held stays of a size that a machine can hold.
pub open spec fn obliging_throughout(ctx: ContextView, pass: PassView, events: Seq<EventView>) -> bool
    decreases events.len(),
{
    if events.len() == 0 {
        true
    } else {
        let before = replay(ctx, pass, events.drop_last()).0;
        &&& obliging_throughout(ctx, pass, events.drop_last())
        &&& obliging(ctx, before, events.last())
        &&& bounded(step(ctx, before, events.last()).0.outputs)
    }
}

/// Whether blocks are wired does not depend on what the pointer does to a
/// block.
pub proof fn lemma_same_frame_wired(ctx: ContextView, index: int, first: BlockView, second: BlockView)
    requires
        0 <= index < ctx.blocks.len(),
        same_frame(first, second),
        wired(ctx.with_block_at(index, first)),
    ensures
        wired(ctx.with_block_at(index, second)),
{
    let before = ctx.with_block_at(index, first);
    let after = ctx.with_block_at(index, second);
    assert forall|i: int, j: int|
        0 <= i < j < after.blocks.len() && (#[trigger] after.blocks[i]) is Some && (
        #[trigger] after.blocks[j]) is Some implies after.blocks[i].unwrap().id
        != after.blocks[j].unwrap().id by {
        assert(before.blocks[i] is Some && before.blocks[j] is Some);
    }
    assert forall|b: int| 0 <= b < after.blocks.len() && (#[trigger] after.blocks[b]) is Some implies {
        &&& after.block_ids.contains_key(after.blocks[b].unwrap().id.0)
        &&& after.block_ids[after.blocks[b].unwrap().id.0] == b
        &&& owns_ports(after.blocks[b].unwrap())
    } by {
        assert(before.blocks[b] is Some);
        if b == index {
            assert(owns_ports(first));
            assert forall|k: int| 0 <= k < second.inputs.len() implies (
            #[trigger] second.inputs[k]).parent_id == second.id && second.inputs[k].connection_type
                == ConnectionType::Inputs by {
                assert(first.inputs[k].parent_id == first.id);
            }
            assert forall|m: int| 0 <= m < second.outputs.len() implies (
            #[trigger] second.outputs[m]).parent_id == second.id
                && second.outputs[m].connection_type == ConnectionType::Outputs by {
                assert(first.outputs[m].parent_id == first.id);
            }
        } else {
            assert(after.blocks[b] == before.blocks[b]);
        }
    }
    assert forall|i: usize| #[trigger] after.input_output.contains_key(i) implies feeds(
        after.blocks,
        after.inputs[i],
        after.input_output[i],
    ) by {
        assert(before.input_output.contains_key(i));
        let (p, m) = choose|p: int, m: int|
            0 <= p < before.blocks.len() && before.blocks[p] is Some && before.blocks[p].unwrap().id
                == before.inputs[i] && 0 <= m < before.blocks[p].unwrap().outputs.len() && (
            #[trigger] before.blocks[p].unwrap().outputs[m]).id == before.input_output[i];
        assert(after.blocks[p].unwrap().outputs[m].id == after.input_output[i]);
    }
}

/// Taking a connection away leaves the blocks wired.
pub proof fn lemma_disconnected_wired(ctx: ContextView, id: Id)
    requires
        wired(ctx),
    ensures
        wired(ctx.disconnected(id)),
{
    let after = ctx.disconnected(id);
    assert(after.inputs.dom() =~= after.input_output.dom());
    assert forall|i: usize| #[trigger] after.input_output.contains_key(i) implies feeds(
        after.blocks,
        after.inputs[i],
        after.input_output[i],
    ) by {
        assert(ctx.input_output.contains_key(i));
    }
}

/// Making a connection between an input and an output that a block has
/// leaves the blocks wired.
pub proof fn lemma_joined_wired(ctx: ContextView, input: Id, output: Id, parent: Id)
    requires
        wired(ctx),
        feeds(ctx.blocks, parent, output),
    ensures
        wired(ctx.joined(input, output, parent)),
{
    let after = ctx.joined(input, output, parent);
    assert(after.inputs.dom() =~= after.input_output.dom());
    assert forall|i: usize| #[trigger] after.input_output.contains_key(i) implies feeds(
        after.blocks,
        after.inputs[i],
        after.input_output[i],
    ) by {
        if ctx.inputs.contains_key(input.0) || i != input.0 {
            assert(ctx.input_output.dom().contains(i) || ctx.input_output.contains_key(i));
            if !ctx.input_output.contains_key(i) {
                assert(ctx.inputs.dom().contains(i));
            }
            assert(ctx.input_output.contains_key(i));
        }
    }
}

/// One frame of a port of a block that is taken out of the context for the
/// time leaves the blocks wired, the block counted in.
pub proof fn lemma_port_updated_wired(
    ctx: ContextView,
    index: int,
    block: BlockView,
    side: ConnectionType,
    k: int,
    pointer: PointerView,
)
    requires
        0 <= index < ctx.blocks.len(),
        ctx.blocks[index] is None,
        wired(ctx.with_block_at(index, block)),
        0 <= k < block.ports(side).len(),
    ensures
        ({
            let port = block.ports(side)[k];
            let (after, context, changed) = port.updated(pointer, ctx);
            &&& context.blocks == ctx.blocks
            &&& after.id == port.id
            &&& after.parent_id == port.parent_id
            &&& after.connection_type == port.connection_type
            &&& after.value == port.value
            &&& wired(context.with_block_at(index, block))
        }),
{
    let whole = ctx.with_block_at(index, block);
    assert(whole.blocks[index] == Some(block));
    assert(owns_ports(block));
    let port = block.ports(side)[k];
    assert(port.parent_id == block.id && port.connection_type == side);
    let over = pointer.ports_under.contains(port.id);
    let hovered = PortView { is_being_hovered: over, ..port };
    let (held, between, changed) = if over && pointer.pressed {
        hovered.pressed(ctx)
    } else {
        (hovered, ctx, false)
    };
    // The press: the drag is taken, and an input lets go of its connection.
    assert(wired(between.with_block_at(index, block))) by {
        if over && pointer.pressed && ctx.currently_dragging is None {
            let grabbed = whole.grabbed(port.id);
            assert(wired(grabbed));
            if port.connection_type == ConnectionType::Inputs {
                lemma_disconnected_wired(grabbed, port.id);
                assert(between.with_block_at(index, block) == grabbed.disconnected(port.id));
            } else {
                assert(between.with_block_at(index, block) == grabbed);
            }
        } else {
            assert(between.with_block_at(index, block) == whole);
        }
    }
    if pointer.released {
        let restored = between.with_block_at(index, block);
        let free = between.let_go(held.id);
        let free_whole = restored.let_go(held.id);
        assert(free.with_block_at(index, block) == free_whole);
        assert(wired(free_whole));
        if held.is_dragging_line {
            let kind = held.value.kind();
            lemma_landing_port(free.blocks, held.connection_type, kind, pointer.ports_under, 0);
            match landing_port(free.blocks, held.connection_type, kind, pointer.ports_under, 0) {
                None => {},
                Some(landing) => {
                    let (i, j) = choose|i: int, j: int|
                        0 <= i < free.blocks.len() && (#[trigger] free.blocks[i]) is Some && 0 <= j
                            < free.blocks[i].unwrap().ports(held.connection_type.opposite()).len()
                            && #[trigger] free.blocks[i].unwrap().ports(
                            held.connection_type.opposite(),
                        )[j] == landing;
                    assert(i != index);
                    assert(free_whole.blocks[i] == free.blocks[i]);
                    assert(owns_ports(free_whole.blocks[i].unwrap()));
                    if held.connection_type == ConnectionType::Inputs {
                        assert(free_whole.blocks[i].unwrap().outputs[j] == landing);
                        assert(feeds(free_whole.blocks, landing.parent_id, landing.id));
                        lemma_joined_wired(free_whole, held.id, landing.id, landing.parent_id);
                        assert(free.joined(held.id, landing.id, landing.parent_id).with_block_at(
                            index,
                            block,
                        ) == free_whole.joined(held.id, landing.id, landing.parent_id));
                    } else {
                        assert(side == ConnectionType::Outputs);
                        assert(free_whole.blocks[index].unwrap().outputs[k].id == held.id);
                        assert(feeds(free_whole.blocks, held.parent_id, held.id));
                        lemma_joined_wired(free_whole, landing.id, held.id, held.parent_id);
                        assert(free.joined(landing.id, held.id, held.parent_id).with_block_at(
                            index,
                            block,
                        ) == free_whole.joined(landing.id, held.id, held.parent_id));
                    }
                },
            }
        }
    }
}

/// One frame of the ports on one side of a block that is taken out of the
/// context for the time leaves the blocks wired, the block counted in, and
/// changes nothing of the ports but what the pointer does to them.
pub proof fn lemma_ports_updated_wired(
    ctx: ContextView,
    index: int,
    block: BlockView,
    side: ConnectionType,
    pointer: PointerView,
    count: nat,
)
    requires
        0 <= index < ctx.blocks.len(),
        ctx.blocks[index] is None,
        wired(ctx.with_block_at(index, block)),
        count <= block.ports(side).len(),
    ensures
        ({
            let (after, context, changed) = ports_updated(block.ports(side), pointer, ctx, count);
            &&& context.blocks == ctx.blocks
            &&& same_ports(after, block.ports(side))
            &&& forall|j: int| count <= j < after.len() ==> #[trigger] after[j] == block.ports(side)[j]
            &&& wired(context.with_block_at(index, block))
        }),
    decreases count,
{
    if count > 0 {
        lemma_ports_updated_wired(ctx, index, block, side, pointer, (count - 1) as nat);
        let (before, between, changed) = ports_updated(
            block.ports(side),
            pointer,
            ctx,
            (count - 1) as nat,
        );
        assert(before[count - 1] == block.ports(side)[count - 1]);
        lemma_port_updated_wired(between, index, block, side, count - 1, pointer);
    }
}

/// One frame of the ports of a block leaves the blocks wired.
pub proof fn lemma_block_updated_wired(ctx: ContextView, index: int, pointer: PointerView)
    requires
        wired(ctx),
        0 <= index < ctx.blocks.len(),
    ensures
        wired(ctx.block_updated(index, pointer).0),
{
    match ctx.blocks[index] {
        None => {},
        Some(block) => {
            let apart = ctx.without(index);
            assert(apart.with_block_at(index, block) == ctx) by {
                assert(apart.with_block_at(index, block).blocks =~= ctx.blocks);
            }
            lemma_ports_updated_wired(
                apart,
                index,
                block,
                ConnectionType::Inputs,
                pointer,
                block.inputs.len(),
            );
            let (inputs, between, first) = ports_updated(
                block.inputs,
                pointer,
                apart,
                block.inputs.len(),
            );
            lemma_ports_updated_wired(
                between,
                index,
                block,
                ConnectionType::Outputs,
                pointer,
                block.outputs.len(),
            );
            let (outputs, after, second) = ports_updated(
                block.outputs,
                pointer,
                between,
                block.outputs.len(),
            );
            let updated = BlockView { inputs, outputs, ..block };
            assert(same_frame(block, updated));
            lemma_same_frame_wired(after, index, block, updated);
        },
    }
}

/// The pointer's say on dragging a block leaves the blocks wired.
pub proof fn lemma_block_dragged_wired(
    ctx: ContextView,
    index: int,
    grip: Option<(u32, u32)>,
    pointer: PointerView,
)
    requires
        wired(ctx),
        0 <= index < ctx.blocks.len(),
    ensures
        wired(ctx.block_dragged(index, grip, pointer)),
{
    match ctx.blocks[index] {
        None => {},
        Some(block) => {
            let apart = ctx.without(index);
            assert(apart.with_block_at(index, block) == ctx) by {
                assert(apart.with_block_at(index, block).blocks =~= ctx.blocks);
            }
            let (after, context) = block.drag_updated(grip, pointer, apart);
            assert(same_frame(block, after));
            assert(wired(context.with_block_at(index, block))) by {
                let whole = context.with_block_at(index, block);
                assert(whole.blocks == ctx.blocks);
                assert(whole.inputs == ctx.inputs && whole.input_output == ctx.input_output
                    && whole.block_ids == ctx.block_ids);
                assert forall|i: usize| #[trigger] whole.input_output.contains_key(i) implies feeds(
                    whole.blocks,
                    whole.inputs[i],
                    whole.input_output[i],
                ) by {
                    assert(ctx.input_output.contains_key(i));
                }
            }
            lemma_same_frame_wired(context, index, block, after);
        },
    }
}

/// Making the graph and the order anew leaves the blocks wired.
pub proof fn lemma_rebuilt_wired(ctx: ContextView)
    requires
        wired(ctx),
    ensures
        wired(ctx.rebuilt()),
{
    let after = ctx.rebuilt();
    assert forall|i: usize| #[trigger] after.input_output.contains_key(i) implies feeds(
        after.blocks,
        after.inputs[i],
        after.input_output[i],
    ) by {
        assert(ctx.input_output.contains_key(i));
    }
}

/// A block whose ports know their sides and whose identity no block
/// carries yet joins wired blocks, and they are wired still.
pub proof fn lemma_with_block_wired(ctx: ContextView, block: BlockView)
    requires
        wired(ctx),
        ctx.blocks.len() < usize::MAX,
        sided(block),
        forall|b: int|
            0 <= b < ctx.blocks.len() && (#[trigger] ctx.blocks[b]) is Some
                ==> ctx.blocks[b].unwrap().id != block.id,
    ensures
        wired(ctx.with_block(block)),
{
    let after = ctx.with_block(block);
    let last = ctx.blocks.len() as int;
    assert(after.blocks[last] == Some(block.adopted()));
    assert forall|i: int, j: int|
        0 <= i < j < after.blocks.len() && (#[trigger] after.blocks[i]) is Some && (
        #[trigger] after.blocks[j]) is Some implies after.blocks[i].unwrap().id
        != after.blocks[j].unwrap().id by {
        assert(after.blocks[i] == ctx.blocks[i]);
        if j < last {
            assert(after.blocks[j] == ctx.blocks[j]);
        }
    }
    assert forall|b: int| 0 <= b < after.blocks.len() && (#[trigger] after.blocks[b]) is Some implies {
        &&& after.block_ids.contains_key(after.blocks[b].unwrap().id.0)
        &&& after.block_ids[after.blocks[b].unwrap().id.0] == b
        &&& owns_ports(after.blocks[b].unwrap())
    } by {
        if b < last {
            assert(after.blocks[b] == ctx.blocks[b]);
            assert(ctx.blocks[b].unwrap().id != block.id);
        }
    }
    assert forall|i: usize| #[trigger] after.input_output.contains_key(i) implies feeds(
        after.blocks,
        after.inputs[i],
        after.input_output[i],
    ) by {
        assert(ctx.input_output.contains_key(i));
        let (p, m) = choose|p: int, m: int|
            0 <= p < ctx.blocks.len() && ctx.blocks[p] is Some && ctx.blocks[p].unwrap().id
                == ctx.inputs[i] && 0 <= m < ctx.blocks[p].unwrap().outputs.len() && (
            #[trigger] ctx.blocks[p].unwrap().outputs[m]).id == ctx.input_output[i];
        assert(after.blocks[p] == ctx.blocks[p]);
        assert(after.blocks[p].unwrap().outputs[m].id == after.input_output[i]);
    }
}

/// A context that is made of well made blocks is wired.
pub proof fn lemma_first_blocks_wired(blocks: Seq<BlockView>, count: nat)
    requires
        well_made(blocks),
        count <= blocks.len(),
    ensures
        wired(with_first_blocks(blocks, count)),
        with_first_blocks(blocks, count).blocks.len() == count,
        forall|b: int|
            0 <= b < count ==> (#[trigger] with_first_blocks(blocks, count).blocks[b]) is Some
                && with_first_blocks(blocks, count).blocks[b].unwrap().id == blocks[b].id,
    decreases count,
{
    if count > 0 {
        lemma_first_blocks_wired(blocks, (count - 1) as nat);
        let before = with_first_blocks(blocks, (count - 1) as nat);
        assert forall|b: int| 0 <= b < before.blocks.len() && (#[trigger] before.blocks[b]) is Some implies before.blocks[b].unwrap().id
            != blocks[count - 1].id by {
            assert(blocks[b].id != blocks[count - 1].id);
        }
        lemma_with_block_wired(before, blocks[count - 1]);
        let after = with_first_blocks(blocks, count);
        assert forall|b: int| 0 <= b < count implies (#[trigger] after.blocks[b]) is Some
            && after.blocks[b].unwrap().id == blocks[b].id by {
            if b < count - 1 {
                assert(after.blocks[b] == before.blocks[b]);
            }
        }
    } else {
        let empty = with_first_blocks(blocks, 0);
        assert(empty.inputs.dom() =~= empty.input_output.dom());
    }
}

/// A connection that is asked for while every block is in its place leaves
/// the blocks wired: a connection from an input always, a connection from
/// an output if a block has that output.
pub proof fn lemma_connected_wired(
    ctx: ContextView,
    my_parent: Id,
    my_id: Id,
    my_type: ConnectionType,
    kind: ValueKind,
    under_pointer: Seq<Id>,
)
    requires
        wired(ctx),
        my_type == ConnectionType::Outputs ==> feeds(ctx.blocks, my_parent, my_id),
    ensures
        wired(ctx.connected(my_parent, my_id, my_type, kind, under_pointer)),
{
    lemma_landing_port(ctx.blocks, my_type, kind, under_pointer, 0);
    match landing_port(ctx.blocks, my_type, kind, under_pointer, 0) {
        None => {},
        Some(landing) => {
            let (i, j) = choose|i: int, j: int|
                0 <= i < ctx.blocks.len() && (#[trigger] ctx.blocks[i]) is Some && 0 <= j
                    < ctx.blocks[i].unwrap().ports(my_type.opposite()).len()
                    && #[trigger] ctx.blocks[i].unwrap().ports(my_type.opposite())[j] == landing;
            assert(owns_ports(ctx.blocks[i].unwrap()));
            if my_type == ConnectionType::Inputs {
                assert(ctx.blocks[i].unwrap().outputs[j] == landing);
                assert(feeds(ctx.blocks, landing.parent_id, landing.id));
                lemma_joined_wired(ctx, my_id, landing.id, landing.parent_id);
            } else {
                lemma_joined_wired(ctx, landing.id, my_id, my_parent);
            }
        },
    }
}

/// The nodes of more places begin with the nodes of fewer places.
pub proof fn lemma_nodes_grow(blocks: Seq<Option<BlockView>>, count: nat, later: nat)
    requires
        count <= later,
    ensures
        nodes_of_first(blocks, count).len() <= nodes_of_first(blocks, later).len(),
        forall|n: int|
            0 <= n < nodes_of_first(blocks, count).len() ==> #[trigger] nodes_of_first(
                blocks,
                later,
            )[n] == nodes_of_first(blocks, count)[n],
    decreases later,
{
    if count < later {
        lemma_nodes_grow(blocks, count, (later - 1) as nat);
    }
}

/// The node of a block carries the identity of the block.
pub proof fn lemma_node_of_block(blocks: Seq<Option<BlockView>>, i: int)
    requires
        0 <= i < blocks.len(),
        blocks[i] is Some,
    ensures
        0 <= node_of(blocks, i) < nodes_of_first(blocks, blocks.len()).len(),
        nodes_of_first(blocks, blocks.len())[node_of(blocks, i)] == node_for(
            blocks[i].unwrap().id,
            node_of(blocks, i),
        ),
{
    let upto = nodes_of_first(blocks, (i + 1) as nat);
    assert(upto == nodes_of_first(blocks, i as nat).push(
        node_for(blocks[i].unwrap().id, node_of(blocks, i)),
    ));
    assert(upto[node_of(blocks, i)] == node_for(blocks[i].unwrap().id, node_of(blocks, i)));
    lemma_nodes_grow(blocks, (i + 1) as nat, blocks.len());
}

/// Every node stands for a block.
pub proof fn lemma_block_of_node(blocks: Seq<Option<BlockView>>, count: nat, n: int)
    requires
        count <= blocks.len(),
        0 <= n < nodes_of_first(blocks, count).len(),
    ensures
        exists|i: int|
            0 <= i < count && (#[trigger] blocks[i]) is Some && node_of(blocks, i) == n,
    decreases count,
{
    if count > 0 {
        let before = nodes_of_first(blocks, (count - 1) as nat);
        if n < before.len() {
            lemma_block_of_node(blocks, (count - 1) as nat, n);
            let i = choose|i: int|
                0 <= i < count - 1 && (#[trigger] blocks[i]) is Some && node_of(blocks, i) == n;
            assert(blocks[i] is Some && node_of(blocks, i) == n);
        } else {
            assert(blocks[count - 1] is Some && node_of(blocks, count - 1) == n);
        }
    }
}

/// The first node that carries `value`, where no node from `from` up to
/// `target` does and the node at `target` does.
proof fn lemma_first_with_value_found(
    nodes: Seq<NodeView<usize>>,
    value: usize,
    from: int,
    target: int,
)
    requires
        nodes.len() <= usize::MAX,
        0 <= from <= target < nodes.len(),
        forall|n: int| from <= n < target ==> (#[trigger] nodes[n]).value != value,
        nodes[target].value == value,
    ensures
        first_with_value(nodes, value, from) == Some(target as usize),
    decreases target - from,
{
    if from < target {
        assert(nodes[from].value != value);
        lemma_first_with_value_found(nodes, value, from + 1, target);
    }
}

/// Among blocks of different identities, the first node that carries the
/// identity of a block is the node of that block.
pub proof fn lemma_first_node_of_block(
    blocks: Seq<Option<BlockView>>,
    nodes: Seq<NodeView<usize>>,
    i: int,
)
    requires
        blocks.len() <= usize::MAX,
        distinct_blocks(blocks),
        same_values(nodes, nodes_of_first(blocks, blocks.len())),
        0 <= i < blocks.len(),
        blocks[i] is Some,
    ensures
        first_with_value(nodes, blocks[i].unwrap().id.0, 0) == Some(node_of(blocks, i) as usize),
{
    let all = nodes_of_first(blocks, blocks.len());
    let target = node_of(blocks, i);
    let value = blocks[i].unwrap().id.0;
    lemma_node_of_block(blocks, i);
    lemma_nodes_of_blocks(blocks, blocks.len());
    assert(nodes[target].value == all[target].value);
    assert forall|n: int| 0 <= n < target implies (#[trigger] nodes[n]).value != value by {
        lemma_block_of_node(blocks, blocks.len(), n);
        let j = choose|j: int|
            0 <= j < blocks.len() && (#[trigger] blocks[j]) is Some && node_of(blocks, j) == n;
        lemma_node_of_block(blocks, j);
        assert(nodes[n].value == all[n].value);
        if j < i {
            assert(blocks[j].unwrap().id != blocks[i].unwrap().id);
        } else if i < j {
            assert(blocks[i].unwrap().id != blocks[j].unwrap().id);
        }
    }
    lemma_first_with_value_found(nodes, value, 0, target);
}

/// Which node is the first to carry a value depends on nothing but what the
/// nodes carry.
pub proof fn lemma_first_with_value_same(
    first: Seq<NodeView<usize>>,
    second: Seq<NodeView<usize>>,
    value: usize,
    from: int,
)
    requires
        same_values(first, second),
    ensures
        first_with_value(first, value, from) == first_with_value(second, value, from),
    decreases first.len() - from,
{
    if 0 <= from < first.len() {
        assert(first[from].value == second[from].value);
        lemma_first_with_value_same(first, second, value, from + 1);
    }
}

/// Recording a dependency takes no dependency away.
pub proof fn lemma_dependency_stays(
    nodes: Seq<NodeView<usize>>,
    a: usize,
    b: usize,
    x: int,
    y: int,
)
    requires
        nodes.len() <= usize::MAX,
        0 <= x < nodes.len(),
        mentions(nodes[x].depends_on, y),
    ensures
        mentions(with_value_dependency(nodes, a, b)[x].depends_on, y),
{
    lemma_first_with_value_in_range(nodes, a, 0);
    lemma_first_with_value_in_range(nodes, b, 0);
    match (first_with_value(nodes, a, 0), first_with_value(nodes, b, 0)) {
        (Some(from), Some(to)) => {
            if x == from {
                lemma_mentions_push(nodes[x].depends_on, to, y);
            }
        },
        _ => {},
    }
}

/// Recording a dependency between two values that nodes carry makes the
/// first node that carries the one depend on the first that carries the
/// other.
pub proof fn lemma_dependency_recorded(nodes: Seq<NodeView<usize>>, a: usize, b: usize)
    requires
        nodes.len() <= usize::MAX,
        first_with_value(nodes, a, 0) is Some,
        first_with_value(nodes, b, 0) is Some,
    ensures
        mentions(
            with_value_dependency(nodes, a, b)[first_with_value(nodes, a, 0).unwrap() as int].depends_on,
            first_with_value(nodes, b, 0).unwrap() as int,
        ),
{
    lemma_first_with_value_in_range(nodes, a, 0);
    lemma_first_with_value_in_range(nodes, b, 0);
    let from = first_with_value(nodes, a, 0).unwrap();
    let to = first_with_value(nodes, b, 0).unwrap();
    lemma_mentions_push(nodes[from as int].depends_on, to, to as int);
}

/// Recording the connections of a block takes no dependency away.
pub proof fn lemma_linked_inputs_keep_edges(
    nodes: Seq<NodeView<usize>>,
    block: BlockView,
    inputs: Map<usize, Id>,
    count: nat,
    x: int,
    y: int,
)
    requires
        nodes.len() <= usize::MAX,
        0 <= x < nodes.len(),
        mentions(nodes[x].depends_on, y),
    ensures
        mentions(linked_first_inputs(nodes, block, inputs, count)[x].depends_on, y),
    decreases count,
{
    if count > 0 {
        lemma_linked_inputs_keep_edges(nodes, block, inputs, (count - 1) as nat, x, y);
        lemma_linked_inputs_keep(nodes, block, inputs, (count - 1) as nat);
        let before = linked_first_inputs(nodes, block, inputs, (count - 1) as nat);
        let port = block.inputs[count - 1];
        if inputs.contains_key(port.id.0) {
            lemma_dependency_stays(before, block.id.0, inputs[port.id.0].0, x, y);
        }
    }
}

/// Recording the connections of all blocks takes no dependency away.
pub proof fn lemma_linked_blocks_keep_edges(
    nodes: Seq<NodeView<usize>>,
    blocks: Seq<Option<BlockView>>,
    inputs: Map<usize, Id>,
    count: nat,
    later: nat,
    x: int,
    y: int,
)
    requires
        nodes.len() <= usize::MAX,
        count <= later,
        0 <= x < nodes.len(),
        mentions(linked_first_blocks(nodes, blocks, inputs, count)[x].depends_on, y),
    ensures
        mentions(linked_first_blocks(nodes, blocks, inputs, later)[x].depends_on, y),
    decreases later,
{
    if count < later {
        lemma_linked_blocks_keep_edges(nodes, blocks, inputs, count, (later - 1) as nat, x, y);
        lemma_linked_blocks_keep(nodes, blocks, inputs, (later - 1) as nat);
        let before = linked_first_blocks(nodes, blocks, inputs, (later - 1) as nat);
        match blocks[later - 1] {
            Some(block) => {
                lemma_linked_inputs_keep_edges(before, block, inputs, block.inputs.len(), x, y);
            },
            None => {},
        }
    }
}

/// Recording the connections of a block makes the node of the block depend
/// on the node of each block that feeds one of its inputs.
pub proof fn lemma_linked_inputs_add_edge(
    nodes: Seq<NodeView<usize>>,
    block: BlockView,
    inputs: Map<usize, Id>,
    count: nat,
    k: int,
)
    requires
        nodes.len() <= usize::MAX,
        0 <= k < count,
        inputs.contains_key(block.inputs[k].id.0),
        first_with_value(nodes, block.id.0, 0) is Some,
        first_with_value(nodes, inputs[block.inputs[k].id.0].0, 0) is Some,
    ensures
        mentions(
            linked_first_inputs(nodes, block, inputs, count)[first_with_value(
                nodes,
                block.id.0,
                0,
            ).unwrap() as int].depends_on,
            first_with_value(nodes, inputs[block.inputs[k].id.0].0, 0).unwrap() as int,
        ),
    decreases count,
{
    let from = first_with_value(nodes, block.id.0, 0).unwrap();
    let to = first_with_value(nodes, inputs[block.inputs[k].id.0].0, 0).unwrap();
    lemma_first_with_value_in_range(nodes, block.id.0, 0);
    lemma_linked_inputs_keep(nodes, block, inputs, (count - 1) as nat);
    let before = linked_first_inputs(nodes, block, inputs, (count - 1) as nat);
    let port = block.inputs[count - 1];
    if k < count - 1 {
        lemma_linked_inputs_add_edge(nodes, block, inputs, (count - 1) as nat, k);
        if inputs.contains_key(port.id.0) {
            lemma_dependency_stays(before, block.id.0, inputs[port.id.0].0, from as int, to as int);
        }
    } else {
        assert(same_values(before, nodes));
        lemma_first_with_value_same(before, nodes, block.id.0, 0);
        lemma_first_with_value_same(before, nodes, inputs[port.id.0].0, 0);
        lemma_dependency_recorded(before, block.id.0, inputs[port.id.0].0);
    }
}

/// In the graph that blocks of different identities and their connections
/// give rise to, the node of a block depends on the node of each block that
/// feeds one of its inputs.
pub proof fn lemma_graph_holds_connections(
    blocks: Seq<Option<BlockView>>,
    inputs: Map<usize, Id>,
    b: int,
    k: int,
    p: int,
)
    requires
        blocks.len() <= usize::MAX,
        distinct_blocks(blocks),
        0 <= b < blocks.len(),
        blocks[b] is Some,
        0 <= k < blocks[b].unwrap().inputs.len(),
        inputs.contains_key(blocks[b].unwrap().inputs[k].id.0),
        0 <= p < blocks.len(),
        blocks[p] is Some,
        blocks[p].unwrap().id == inputs[blocks[b].unwrap().inputs[k].id.0],
    ensures
        well_formed(graph_of(blocks, inputs)),
        0 <= node_of(blocks, b) < graph_of(blocks, inputs).len(),
        0 <= node_of(blocks, p) < graph_of(blocks, inputs).len(),
        mentions(graph_of(blocks, inputs)[node_of(blocks, b)].depends_on, node_of(blocks, p)),
{
    let bare = nodes_of_first(blocks, blocks.len());
    let block = blocks[b].unwrap();
    lemma_nodes_of_blocks(blocks, blocks.len());
    lemma_node_of_block(blocks, b);
    lemma_node_of_block(blocks, p);
    lemma_linked_blocks_keep(bare, blocks, inputs, blocks.len());
    lemma_linked_blocks_keep(bare, blocks, inputs, b as nat);
    let before = linked_first_blocks(bare, blocks, inputs, b as nat);
    assert(same_values(before, bare));
    lemma_first_node_of_block(blocks, before, b);
    lemma_first_node_of_block(blocks, before, p);
    lemma_linked_inputs_add_edge(before, block, inputs, block.inputs.len(), k);
    assert(linked_first_blocks(bare, blocks, inputs, (b + 1) as nat) == linked_first_inputs(
        before,
        block,
        inputs,
        block.inputs.len(),
    ));
    lemma_linked_blocks_keep_edges(
        bare,
        blocks,
        inputs,
        (b + 1) as nat,
        blocks.len(),
        node_of(blocks, b),
        node_of(blocks, p),
    );
}

/// A block is evaluated after each block that feeds one of its inputs:
/// where the blocks carry different identities and do not feed each other in
/// a circle, the node of the feeding block `p` stands in the order of
/// evaluation before the node of the block `b` that it feeds.
pub proof fn lemma_feeding_block_comes_first(ctx: ContextView, b: int, k: int, p: int)
    requires
        ctx.blocks.len() <= usize::MAX,
        distinct_blocks(ctx.blocks),
        ctx.graph == graph_of(ctx.blocks, ctx.inputs),
        ctx.graph_order == evaluation_order(adjacency_of(ctx.graph)),
        acyclic(adjacency_of(ctx.graph)),
        0 <= b < ctx.blocks.len(),
        ctx.blocks[b] is Some,
        0 <= k < ctx.blocks[b].unwrap().inputs.len(),
        ctx.inputs.contains_key(ctx.blocks[b].unwrap().inputs[k].id.0),
        0 <= p < ctx.blocks.len(),
        ctx.blocks[p] is Some,
        ctx.blocks[p].unwrap().id == ctx.inputs[ctx.blocks[b].unwrap().inputs[k].id.0],
    ensures
        exists|r: int|
            0 <= r < ctx.graph_order.len() && #[trigger] ctx.graph_order[r] as int == node_of(
                ctx.blocks,
                b,
            ) && stands_before(ctx.graph_order, node_of(ctx.blocks, p) as usize, r),
{
    let adj = adjacency_of(ctx.graph);
    let order = ctx.graph_order;
    let from = node_of(ctx.blocks, b);
    let to = node_of(ctx.blocks, p);
    lemma_graph_holds_connections(ctx.blocks, ctx.inputs, b, k, p);
    lemma_nodes_of_blocks(ctx.blocks, ctx.blocks.len());
    lemma_linked_blocks_keep(
        nodes_of_first(ctx.blocks, ctx.blocks.len()),
        ctx.blocks,
        ctx.inputs,
        ctx.blocks.len(),
    );
    lemma_acyclic_order_valid(adj);
    assert(mentions(order, from));
    let r = choose|r: int| 0 <= r < order.len() && #[trigger] order[r] as int == from;
    let edge = choose|e: int|
        0 <= e < ctx.graph[from].depends_on.len() && #[trigger] ctx.graph[from].depends_on[e] as int
            == to;
    assert(adj[order[r] as int][edge] as int == to);
    assert(stands_before(order, adj[order[r] as int][edge], r));
}

/// Wired blocks whose graph and order of evaluation are those of the blocks
/// and their connections, and that do not feed each other in a circle, are
/// wired soundly.
pub proof fn lemma_wired_is_sound(ctx: ContextView)
    requires
        wired(ctx),
        ctx.graph == graph_of(ctx.blocks, ctx.inputs),
        ctx.graph_order == evaluation_order(adjacency_of(ctx.graph)),
        acyclic(adjacency_of(ctx.graph)),
    ensures
        soundly_wired(ctx),
{
    assert forall|b: int, k: int|
        0 <= b < ctx.blocks.len() && ctx.blocks[b] is Some && 0 <= k
            < ctx.blocks[b].unwrap().inputs.len() && ctx.input_output.contains_key(
            (#[trigger] ctx.blocks[b].unwrap().inputs[k]).id.0,
        ) implies fed_by_block(ctx, b, k) by {
        let i = ctx.blocks[b].unwrap().inputs[k].id.0;
        assert(ctx.input_output.dom().contains(i));
        assert(ctx.inputs.dom().contains(i));
    }
}

/// Keeping results keeps what is held, adds something for each port, and
/// leaves no output empty.
pub proof fn lemma_recorded_outputs(
    outputs: Map<usize, OutputView>,
    ports: Seq<PortView>,
    results: Seq<OutputView>,
    count: nat,
)
    requires
        nonempty(outputs),
        count <= results.len(),
        count <= ports.len(),
        forall|m: int| 0 <= m < results.len() ==> (#[trigger] results[m]).elements().len() > 0,
    ensures
        nonempty(record_first(outputs, ports, results, count)),
        forall|id: usize|
            outputs.contains_key(id) ==> #[trigger] record_first(
                outputs,
                ports,
                results,
                count,
            ).contains_key(id),
        forall|m: int|
            0 <= m < count ==> record_first(outputs, ports, results, count).contains_key(
                (#[trigger] ports[m]).id.0,
            ),
    decreases count,
{
    if count > 0 {
        lemma_recorded_outputs(outputs, ports, results, (count - 1) as nat);
        let before = record_first(outputs, ports, results, (count - 1) as nat);
        let id = ports[count - 1].id;
        let after = record_one(before, id, results[count - 1]);
        assert forall|other: usize| after.contains_key(other) implies (#[trigger] after[other]).elements().len()
            > 0 by {
            if other != id.0 {
                assert(before.contains_key(other));
            } else {
                assert(results[count - 1].elements().len() > 0);
            }
        }
        assert forall|m: int| 0 <= m < count implies after.contains_key((#[trigger] ports[m]).id.0) by {
            if m < count - 1 {
                assert(before.contains_key(ports[m].id.0));
            }
        }
    }
}

/// Where every connected input finds something at the output that feeds
/// it, resolving the inputs does not fail for want of an output.
pub proof fn lemma_resolve_finds_outputs(
    block: BlockView,
    input_output: Map<usize, Id>,
    owners: Map<usize, Id>,
    outputs: Map<usize, OutputView>,
    count: nat,
)
    requires
        count <= block.inputs.len(),
        forall|k: int|
            0 <= k < block.inputs.len() && input_output.contains_key(
                (#[trigger] block.inputs[k]).id.0,
            ) ==> outputs.contains_key(input_output[block.inputs[k].id.0].0),
    ensures
        !(resolve_first(block, input_output, owners, outputs, count) matches Err(
            EvalError::MissingOutput { .. },
        )),
    decreases count,
{
    if count > 0 {
        lemma_resolve_finds_outputs(block, input_output, owners, outputs, (count - 1) as nat);
        let port = block.inputs[count - 1];
        if input_output.contains_key(port.id.0) {
            assert(outputs.contains_key(input_output[port.id.0].0));
        }
    }
}

/// Flattening does not fail for want of an output.
pub proof fn lemma_flatten_misses_nothing(block: Id, inputs: Seq<OutputView>, count: nat)
    ensures
        !(flatten_first(block, inputs, count) matches Err(EvalError::MissingOutput { .. })),
    decreases count,
{
    if count > 0 {
        lemma_flatten_misses_nothing(block, inputs, (count - 1) as nat);
    }
}

/// The node at a place of the order stands for the block at that place.
pub proof fn lemma_node_at_position(ctx: ContextView, position: int)
    requires
        soundly_wired(ctx),
        0 <= position < ctx.graph_order.len(),
    ensures
        ctx.graph_order[position] < ctx.graph.len(),
        0 <= ctx.block_index_at(position) < ctx.blocks.len(),
        block_at(ctx, position) is Some,
        node_of(ctx.blocks, ctx.block_index_at(position) as int) == ctx.graph_order[position],
{
    let bare = nodes_of_first(ctx.blocks, ctx.blocks.len());
    lemma_nodes_of_blocks(ctx.blocks, ctx.blocks.len());
    lemma_linked_blocks_keep(bare, ctx.blocks, ctx.inputs, ctx.blocks.len());
    lemma_order_permutes(adjacency_of(ctx.graph), ctx.graph.len());
    let n = ctx.graph_order[position] as int;
    assert(n < ctx.graph.len());
    lemma_block_of_node(ctx.blocks, ctx.blocks.len(), n);
    let j = choose|j: int|
        0 <= j < ctx.blocks.len() && (#[trigger] ctx.blocks[j]) is Some && node_of(ctx.blocks, j)
            == n;
    lemma_node_of_block(ctx.blocks, j);
    assert(ctx.graph[n].value == bare[n].value);
    assert(ctx.block_ids[ctx.blocks[j].unwrap().id.0] == j);
}

/// A block finds something at every output that feeds one of its inputs,
/// once the blocks before it in the order have had their turn.
pub proof fn lemma_inputs_are_fed(
    ctx: ContextView,
    outputs: Map<usize, OutputView>,
    position: int,
    k: int,
)
    requires
        soundly_wired(ctx),
        0 <= position < ctx.graph_order.len(),
        done_before(ctx, outputs, position),
        0 <= k < block_at(ctx, position).unwrap().inputs.len(),
        ctx.input_output.contains_key(block_at(ctx, position).unwrap().inputs[k].id.0),
    ensures
        outputs.contains_key(
            ctx.input_output[block_at(ctx, position).unwrap().inputs[k].id.0].0,
        ),
{
    lemma_node_at_position(ctx, position);
    let bare = nodes_of_first(ctx.blocks, ctx.blocks.len());
    lemma_nodes_of_blocks(ctx.blocks, ctx.blocks.len());
    lemma_linked_blocks_keep(bare, ctx.blocks, ctx.inputs, ctx.blocks.len());
    let b = ctx.block_index_at(position) as int;
    let port = ctx.blocks[b].unwrap().inputs[k];
    assert(fed_by_block(ctx, b, k));
    assert(feeds(ctx.blocks, ctx.inputs[port.id.0], ctx.input_output[port.id.0]));
    let (p, m) = choose|p: int, m: int|
        0 <= p < ctx.blocks.len() && ctx.blocks[p] is Some && ctx.blocks[p].unwrap().id
            == ctx.inputs[port.id.0] && 0 <= m < ctx.blocks[p].unwrap().outputs.len()
            && (#[trigger] ctx.blocks[p].unwrap().outputs[m]).id == ctx.input_output[port.id.0];
    lemma_feeding_block_comes_first(ctx, b, k, p);
    let r = choose|r: int|
        0 <= r < ctx.graph_order.len() && #[trigger] ctx.graph_order[r] as int == node_of(
            ctx.blocks,
            b,
        ) && stands_before(ctx.graph_order, node_of(ctx.blocks, p) as usize, r);
    lemma_order_permutes(adjacency_of(ctx.graph), ctx.graph.len());
    assert(r == position);
    let q = choose|q: int|
        0 <= q < r && q < ctx.graph_order.len() && #[trigger] ctx.graph_order[q] == node_of(
            ctx.blocks,
            p,
        ) as usize;
    lemma_node_at_position(ctx, q);
    lemma_node_of_block(ctx.blocks, p);
    assert(ctx.graph[node_of(ctx.blocks, p)].value == bare[node_of(ctx.blocks, p)].value);
    assert(ctx.block_index_at(q) == p);
    assert(block_at(ctx, q) is Some);
    assert(holds_outputs_of(outputs, ctx.blocks[p].unwrap()));
    assert(outputs.contains_key(ctx.blocks[p].unwrap().outputs[m].id.0));
}

/// The search for the next block to call leaves what is held as it is.
pub proof fn lemma_seek_stays(ctx: ContextView, outputs: Map<usize, OutputView>, position: nat)
    ensures
        seek(ctx, outputs, position).0.outputs == outputs,
    decreases ctx.graph_order.len() - position,
{
    if position < ctx.graph_order.len() {
        lemma_seek_stays(ctx, outputs, position + 1);
    }
}

/// The search for the next block to call keeps the pass on its course and
/// does not fail for want of an output.
pub proof fn lemma_seek_on_course(
    ctx: ContextView,
    outputs: Map<usize, OutputView>,
    position: nat,
)
    requires
        soundly_wired(ctx),
        ctx.runnable(),
        bounded(outputs),
        nonempty(outputs),
        position <= ctx.graph_order.len(),
        done_before(ctx, outputs, position as int),
    ensures
        on_course(ctx, seek(ctx, outputs, position).0),
        seek(ctx, outputs, position).0.outputs == outputs,
        !(seek(ctx, outputs, position).1 matches ActionView::Failed(
            EvalError::MissingOutput { .. },
        )),
    decreases ctx.graph_order.len() - position,
{
    if position < ctx.graph_order.len() {
        lemma_node_at_position(ctx, position as int);
        let block_index = ctx.block_index_at(position as int);
        let block = ctx.blocks[block_index as int].unwrap();
        assert(block_at(ctx, position as int) == Some(block));
        assert forall|k: int|
            0 <= k < block.inputs.len() && ctx.input_output.contains_key(
                (#[trigger] block.inputs[k]).id.0,
            ) implies outputs.contains_key(ctx.input_output[block.inputs[k].id.0].0) by {
            lemma_inputs_are_fed(ctx, outputs, position as int, k);
        }
        lemma_resolve_finds_outputs(block, ctx.input_output, ctx.inputs, outputs, block.inputs.len());
        let resolved = resolve_first(block, ctx.input_output, ctx.inputs, outputs, block.inputs.len());
        if resolved is Ok {
            lemma_flatten_misses_nothing(
                block.id,
                resolved->Ok_0.inputs,
                resolved->Ok_0.inputs.len(),
            );
        }
        match prepare(block, ctx.input_output, ctx.inputs, outputs) {
            Err(e) => {},
            Ok(p) => {
                lemma_prepared_uniform(block, ctx.input_output, ctx.inputs, outputs);
                if !block.flatten_inputs && resolved->Ok_0.iteration is Some {
                    lemma_last_sequence(block, ctx.input_output, ctx.inputs, outputs, block.inputs.len());
                }
                assert(p.iterations >= 1);
            },
        }
    }
}

/// One step of a pass over soundly wired blocks, with a block that obliges,
/// keeps the pass on its course and does not fail for want of an output.
pub proof fn lemma_step_on_course(ctx: ContextView, pass: PassView, event: EventView)
    requires
        soundly_wired(ctx),
        ctx.runnable(),
        on_course(ctx, pass),
        obliging(ctx, pass, event),
        bounded(step(ctx, pass, event).0.outputs),
    ensures
        on_course(ctx, step(ctx, pass, event).0),
        !(step(ctx, pass, event).1 matches ActionView::Failed(EvalError::MissingOutput { .. })),
{
    let noted = after_event(ctx, pass, event);
    match pass.phase {
        Phase::Idle => {
            assert(done_before(ctx, noted.outputs, 0));
            lemma_seek_on_course(ctx, noted.outputs, 0);
        },
        Phase::Calling => {
            let block = ctx.blocks[pass.block_index as int].unwrap();
            let results = event->Returned_0.unwrap();
            lemma_recorded_outputs(pass.outputs, block.outputs, results, results.len());
            assert(holds_outputs_of(noted.outputs, block));
            assert forall|q: int|
                0 <= q < pass.position + 1 && q < ctx.graph_order.len() && (#[trigger] block_at(
                    ctx,
                    q,
                )) is Some implies holds_outputs_of(noted.outputs, block_at(ctx, q).unwrap()) by {
                if q < pass.position {
                    assert(holds_outputs_of(pass.outputs, block_at(ctx, q).unwrap()));
                }
            }
            if noted.iteration < noted.iterations {
            } else {
                assert(step(ctx, pass, event) == seek(ctx, noted.outputs, pass.position + 1));
                lemma_seek_stays(ctx, noted.outputs, pass.position + 1);
                lemma_seek_on_course(ctx, noted.outputs, pass.position + 1);
            }
        },
        Phase::Finished => {},
        Phase::Failed(e) => {},
    }
}

/// No output is missed: in a pass over soundly wired blocks, each of which
/// returns something for each of its outputs, no block is ever found to
/// depend on an output that holds nothing. The order of evaluation sees to
/// it that a block has its turn after the blocks that feed it.
pub proof fn lemma_no_output_is_missed(ctx: ContextView, pass: PassView, events: Seq<EventView>)
    requires
        soundly_wired(ctx),
        ctx.runnable(),
        on_course(ctx, pass),
        obliging_throughout(ctx, pass, events),
    ensures
        on_course(ctx, replay(ctx, pass, events).0),
        forall|i: int|
            0 <= i < events.len() ==> !(#[trigger] replay(ctx, pass, events).1[i] matches ActionView::Failed(
                EvalError::MissingOutput { .. },
            )),
        replay(ctx, pass, events).1.len() == events.len(),
    decreases events.len(),
{
    if events.len() > 0 {
        lemma_no_output_is_missed(ctx, pass, events.drop_last());
        let (before, actions) = replay(ctx, pass, events.drop_last());
        lemma_step_on_course(ctx, before, events.last());
        let (after, action) = step(ctx, before, events.last());
        assert(replay(ctx, pass, events).1 == actions.push(action));
        assert forall|i: int| 0 <= i < events.len() implies !(#[trigger] replay(
            ctx,
            pass,
            events,
        ).1[i] matches ActionView::Failed(EvalError::MissingOutput { .. })) by {
            if i < events.len() - 1 {
                assert(replay(ctx, pass, events).1[i] == actions[i]);
            }
        }
    }
}

} // verus!

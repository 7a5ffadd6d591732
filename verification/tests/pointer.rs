use block_graph::block::{BlockConnectionNode, ConnectionType, DraggableBlock};
use block_graph::context::BlockContext;
use block_graph::id::{Id, IdAllocator};
use block_graph::interaction::{MovedEnd, PointerState};
use block_graph::value::InputValue;

fn pointer(pressed: bool, down: bool, released: bool, under: Vec<Id>) -> PointerState {
    PointerState { pressed, down, released, ports_under: under }
}

fn block_with(ids: &mut IdAllocator, inputs: usize, outputs: usize) -> DraggableBlock {
    let mut b = DraggableBlock::new(ids);
    for _ in 0..inputs {
        b.inputs.push(BlockConnectionNode::new("in", ConnectionType::Inputs, ids));
    }
    for _ in 0..outputs {
        b.outputs.push(BlockConnectionNode::new("out", ConnectionType::Outputs, ids));
    }
    b
}

/// A source `a` and a sink `b`; the sink is taken out of the context for its frame.
fn source_and_sink() -> (BlockContext, DraggableBlock, Id, Id) {
    let mut ids = IdAllocator::new();
    let a = block_with(&mut ids, 0, 1);
    let b = block_with(&mut ids, 1, 0);
    let (a_out, b_in) = (a.outputs[0].id, b.inputs[0].id);
    let mut ctx = BlockContext::new(vec![a, b]);
    let sink = ctx.blocks[1].take().unwrap();
    (ctx, sink, a_out, b_in)
}

#[test]
fn hover_follows_the_pointer() {
    let (mut ctx, mut sink, _a_out, b_in) = source_and_sink();
    let port = &mut sink.inputs[0];
    assert!(!port.update(&pointer(false, false, false, vec![b_in]), &mut ctx));
    assert!(port.is_being_hovered);
    assert!(!port.is_dragging_line);
    assert!(!port.update(&pointer(false, false, false, vec![]), &mut ctx));
    assert!(!port.is_being_hovered);
    assert_eq!(ctx.currently_dragging, None);
}

#[test]
fn drag_from_input_and_drop_on_output_connects() {
    let (mut ctx, mut sink, a_out, b_in) = source_and_sink();
    let sink_id = sink.id;
    let port = &mut sink.inputs[0];
    // Press on the input: it takes the drag. An input reports a change even if it had no connection.
    assert!(port.update(&pointer(true, true, false, vec![b_in]), &mut ctx));
    assert!(port.is_dragging_line);
    assert_eq!(ctx.currently_dragging, Some(b_in.0));
    // Release over the output.
    assert!(port.update(&pointer(false, false, true, vec![a_out]), &mut ctx));
    assert!(!port.is_dragging_line);
    assert!(!port.is_being_hovered);
    assert_eq!(ctx.currently_dragging, None);
    assert_eq!(ctx.connections, vec![(b_in, a_out)]);
    assert_eq!(ctx.input_output.get(&b_in.0), Some(&a_out));
    assert_eq!(ctx.inputs.get(&b_in.0).map(|id| id.0), Some(ctx.blocks[0].as_ref().unwrap().id.0));
    assert_eq!(port.parent_id, sink_id);
}

#[test]
fn press_on_connected_input_breaks_its_connection() {
    let (mut ctx, mut sink, a_out, b_in) = source_and_sink();
    let sink_id = sink.id;
    ctx.can_connect(sink_id, b_in, ConnectionType::Inputs, &InputValue::Number(0), &vec![a_out]);
    assert_eq!(ctx.connections.len(), 1);
    let port = &mut sink.inputs[0];
    assert!(port.update(&pointer(true, true, false, vec![b_in]), &mut ctx));
    assert!(ctx.connections.is_empty());
    assert!(ctx.inputs.is_empty());
    assert!(ctx.input_output.is_empty());
    // Released over nothing: no connection, but a change is reported.
    assert!(port.update(&pointer(false, false, true, vec![]), &mut ctx));
    assert!(ctx.connections.is_empty());
}

#[test]
fn press_while_something_else_is_dragged_does_nothing() {
    let (mut ctx, mut sink, _a_out, b_in) = source_and_sink();
    assert!(ctx.can_drag(Id(77)));
    let port = &mut sink.inputs[0];
    assert!(!port.update(&pointer(true, true, false, vec![b_in]), &mut ctx));
    assert!(!port.is_dragging_line);
    assert!(port.is_being_hovered);
    assert_eq!(ctx.currently_dragging, Some(77));
    // A release by a port that does not hold the drag leaves it where it is.
    assert!(!port.update(&pointer(false, false, true, vec![b_in]), &mut ctx));
    assert_eq!(ctx.currently_dragging, Some(77));
}

#[test]
fn press_on_output_keeps_connections() {
    let mut ids = IdAllocator::new();
    let a = block_with(&mut ids, 0, 1);
    let b = block_with(&mut ids, 1, 0);
    let (a_id, a_out, b_in) = (a.id, a.outputs[0].id, b.inputs[0].id);
    let mut ctx = BlockContext::new(vec![a, b]);
    ctx.can_connect(a_id, a_out, ConnectionType::Outputs, &InputValue::Number(0), &vec![b_in]);
    let mut source = ctx.blocks[0].take().unwrap();
    assert!(!source.update(&pointer(true, true, false, vec![a_out]), &mut ctx));
    assert!(source.outputs[0].is_dragging_line);
    assert_eq!(ctx.connections, vec![(b_in, a_out)]);
    // Dropped on the input that is connected already: the connection stays as it is.
    assert!(source.update(&pointer(false, false, true, vec![b_in]), &mut ctx));
    assert_eq!(ctx.connections, vec![(b_in, a_out)]);
    assert_eq!(ctx.currently_dragging, None);
}

#[test]
fn block_drag_takes_and_returns_the_token() {
    let mut ids = IdAllocator::new();
    let mut ctx = BlockContext::new(vec![]);
    let mut b = block_with(&mut ids, 1, 1);
    let idle = pointer(false, false, false, vec![]);
    b.update_drag(Some((4, 5)), &idle, &mut ctx);
    assert_eq!(b.being_dragged_from, None);
    let held = pointer(true, true, false, vec![]);
    b.update_drag(None, &held, &mut ctx);
    assert_eq!(b.being_dragged_from, None);
    b.update_drag(Some((4, 5)), &held, &mut ctx);
    assert_eq!(b.being_dragged_from, Some((4, 5)));
    assert_eq!(ctx.currently_dragging, Some(b.id.0));
    // While it is dragged the grip stays where it was taken.
    b.update_drag(Some((9, 9)), &held, &mut ctx);
    assert_eq!(b.being_dragged_from, Some((4, 5)));
    let up = pointer(false, false, true, vec![]);
    b.update_drag(Some((9, 9)), &up, &mut ctx);
    assert_eq!(b.being_dragged_from, None);
    assert_eq!(ctx.currently_dragging, None);
}

#[test]
fn block_does_not_take_a_drag_that_is_held() {
    let mut ids = IdAllocator::new();
    let mut ctx = BlockContext::new(vec![]);
    let mut b = block_with(&mut ids, 0, 0);
    assert!(ctx.can_drag(Id(500)));
    b.update_drag(Some((1, 1)), &pointer(true, true, false, vec![]), &mut ctx);
    assert_eq!(b.being_dragged_from, None);
    assert_eq!(ctx.currently_dragging, Some(500));
}

#[test]
fn connection_ends_that_move_with_a_block() {
    let mut ids = IdAllocator::new();
    let a = block_with(&mut ids, 0, 1);
    let b = block_with(&mut ids, 1, 1);
    let c = block_with(&mut ids, 1, 0);
    let (a_id, a_out) = (a.id, a.outputs[0].id);
    let (b_id, b_in, b_out) = (b.id, b.inputs[0].id, b.outputs[0].id);
    let c_in = c.inputs[0].id;
    let b_ports = b.port_ids();
    assert_eq!(b_ports, vec![b_in, b_out]);
    let mut ctx = BlockContext::new(vec![a, b, c]);
    ctx.can_connect(a_id, a_out, ConnectionType::Outputs, &InputValue::Number(0), &vec![b_in]);
    ctx.can_connect(b_id, b_out, ConnectionType::Outputs, &InputValue::Number(0), &vec![c_in]);
    assert_eq!(ctx.connections, vec![(b_in, a_out), (c_in, b_out)]);
    assert_eq!(ctx.update_connection_positions(&b_ports), vec![MovedEnd::First, MovedEnd::Second]);
    assert_eq!(ctx.update_connection_positions(&vec![a_out]), vec![MovedEnd::Second, MovedEnd::Neither]);
}

#[test]
fn ports_of_one_block_do_not_connect_to_each_other() {
    let mut ids = IdAllocator::new();
    let a = block_with(&mut ids, 1, 1);
    let b = block_with(&mut ids, 1, 0);
    let (a_in, a_out, b_in) = (a.inputs[0].id, a.outputs[0].id, b.inputs[0].id);
    let mut ctx = BlockContext::new(vec![a, b]);
    // Press on the output of the first block, release over its own input.
    assert!(!ctx.update_block(0, &pointer(true, true, false, vec![a_out])));
    assert_eq!(ctx.currently_dragging, Some(a_out.0));
    assert!(ctx.blocks[0].as_ref().unwrap().outputs[0].is_dragging_line);
    assert!(ctx.update_block(0, &pointer(false, false, true, vec![a_in])));
    assert!(ctx.connections.is_empty());
    assert_eq!(ctx.currently_dragging, None);
    // The same movement onto the input of the other block connects.
    assert!(!ctx.update_block(0, &pointer(true, true, false, vec![a_out])));
    assert!(ctx.update_block(0, &pointer(false, false, true, vec![b_in])));
    assert_eq!(ctx.connections, vec![(b_in, a_out)]);
    assert_eq!(ctx.inputs.get(&b_in.0), Some(&ctx.blocks[0].as_ref().unwrap().id));
    assert_eq!(ctx.blocks.len(), 2);
    assert!(ctx.blocks.iter().all(|b| b.is_some()));
}

#[test]
fn inputs_have_their_frame_before_outputs() {
    let mut ids = IdAllocator::new();
    let a = block_with(&mut ids, 1, 1);
    let (a_in, a_out) = (a.inputs[0].id, a.outputs[0].id);
    let mut ctx = BlockContext::new(vec![a]);
    // Both ports under the pointer: the input is first to ask for the drag.
    assert!(ctx.update_block(0, &pointer(true, true, false, vec![a_out, a_in])));
    assert_eq!(ctx.currently_dragging, Some(a_in.0));
    let block = ctx.blocks[0].as_ref().unwrap();
    assert!(block.inputs[0].is_dragging_line);
    assert!(!block.outputs[0].is_dragging_line);
    assert!(block.inputs[0].is_being_hovered && block.outputs[0].is_being_hovered);
}

#[test]
fn drag_block_in_its_place() {
    let mut ids = IdAllocator::new();
    let a = block_with(&mut ids, 0, 0);
    let b = block_with(&mut ids, 0, 0);
    let (a_id, b_id) = (a.id, b.id);
    let mut ctx = BlockContext::new(vec![a, b]);
    ctx.drag_block(1, Some((3, 4)), &pointer(true, true, false, vec![]));
    assert_eq!(ctx.currently_dragging, Some(b_id.0));
    assert_eq!(ctx.blocks[1].as_ref().unwrap().being_dragged_from, Some((3, 4)));
    // The other block cannot be dragged meanwhile.
    ctx.drag_block(0, Some((1, 1)), &pointer(false, true, false, vec![]));
    assert_eq!(ctx.blocks[0].as_ref().unwrap().being_dragged_from, None);
    assert_eq!(ctx.currently_dragging, Some(b_id.0));
    // A release gives the drag back, whichever block sees it.
    ctx.drag_block(0, None, &pointer(false, false, true, vec![]));
    assert_eq!(ctx.currently_dragging, Some(b_id.0));
    ctx.drag_block(1, None, &pointer(false, false, true, vec![]));
    assert_eq!(ctx.currently_dragging, None);
    assert_eq!(ctx.blocks[1].as_ref().unwrap().being_dragged_from, None);
    assert_eq!(ctx.blocks[0].as_ref().unwrap().id, a_id);
}

#[test]
fn a_place_without_a_block_has_no_frame() {
    let mut ids = IdAllocator::new();
    let a = block_with(&mut ids, 1, 0);
    let a_in = a.inputs[0].id;
    let mut ctx = BlockContext::new(vec![a]);
    let taken = ctx.blocks[0].take();
    assert!(!ctx.update_block(0, &pointer(true, true, true, vec![a_in])));
    ctx.drag_block(0, Some((0, 0)), &pointer(true, true, false, vec![]));
    assert_eq!(ctx.currently_dragging, None);
    assert!(ctx.blocks[0].is_none());
    ctx.blocks[0] = taken;
}

use block_graph::block::{BlockConnectionNode, ConnectionType, DraggableBlock};
use block_graph::context::BlockContext;
use block_graph::id::{Id, IdAllocator};
use block_graph::value::InputValue;

fn number() -> InputValue {
    InputValue::Number(0)
}

fn point() -> InputValue {
    InputValue::Point((0, 0))
}

fn source(ids: &mut IdAllocator, value: InputValue) -> DraggableBlock {
    let mut b = DraggableBlock::new(ids);
    b.outputs.push(BlockConnectionNode::new_with_input_type("out", value, ConnectionType::Outputs, ids));
    b
}

fn sink(ids: &mut IdAllocator, value: InputValue) -> DraggableBlock {
    let mut b = DraggableBlock::new(ids);
    b.inputs.push(BlockConnectionNode::new_with_input_type("in", value, ConnectionType::Inputs, ids));
    b
}

#[test]
fn ids_rise_by_one() {
    let mut ids = IdAllocator::new();
    assert_eq!(ids.get_id(), Id(0));
    assert_eq!(ids.get_id(), Id(1));
    assert_eq!(ids.get_id(), Id(2));
    assert!(!ids.is_exhausted());
}

#[test]
fn new_context_adopts_ports_and_orders_blocks() {
    let mut ids = IdAllocator::new();
    let a = source(&mut ids, number());
    let b = sink(&mut ids, number());
    let (a_id, b_id) = (a.id, b.id);
    let ctx = BlockContext::new(vec![a, b]);
    assert_eq!(ctx.blocks.len(), 2);
    assert_eq!(ctx.blocks[0].as_ref().unwrap().outputs[0].parent_id, a_id);
    assert_eq!(ctx.blocks[1].as_ref().unwrap().inputs[0].parent_id, b_id);
    assert_eq!(ctx.graph_order, vec![0, 1]);
    assert_eq!(ctx.block_ids.get(&a_id.0), Some(&0));
    assert_eq!(ctx.block_ids.get(&b_id.0), Some(&1));
    assert_eq!(ctx.graph.nodes[1].value, b_id.0);
    assert!(ctx.connections.is_empty());
}

#[test]
fn number_output_does_not_connect_to_point_input() {
    let mut ids = IdAllocator::new();
    let a = source(&mut ids, number());
    let b = sink(&mut ids, point());
    let (a_id, a_out, b_in) = (a.id, a.outputs[0].id, b.inputs[0].id);
    let mut ctx = BlockContext::new(vec![a, b]);
    // Dragged from the number output and dropped on the point input.
    ctx.can_connect(a_id, a_out, ConnectionType::Outputs, &number(), &vec![b_in]);
    assert!(ctx.connections.is_empty());
    assert!(ctx.inputs.is_empty());
    assert!(ctx.input_output.is_empty());
    ctx.update(true);
    assert_eq!(ctx.graph_order, vec![0, 1]);
}

#[test]
fn matching_kinds_connect_in_either_direction_as_input_and_output() {
    let mut ids = IdAllocator::new();
    let a = source(&mut ids, number());
    let b = sink(&mut ids, number());
    let (a_id, a_out, b_id, b_in) = (a.id, a.outputs[0].id, b.id, b.inputs[0].id);
    let mut from_output = BlockContext::new(vec![source_like(&a), sink_like(&b)]);
    from_output.can_connect(a_id, a_out, ConnectionType::Outputs, &number(), &vec![b_in]);
    assert_eq!(from_output.connections, vec![(b_in, a_out)]);
    assert_eq!(from_output.inputs.get(&b_in.0), Some(&a_id));
    assert_eq!(from_output.input_output.get(&b_in.0), Some(&a_out));

    let mut from_input = BlockContext::new(vec![a, b]);
    from_input.can_connect(b_id, b_in, ConnectionType::Inputs, &number(), &vec![a_out]);
    assert_eq!(from_input.connections, vec![(b_in, a_out)]);
    assert_eq!(from_input.inputs.get(&b_in.0), Some(&a_id));
    assert_eq!(from_input.input_output.get(&b_in.0), Some(&a_out));
}

fn source_like(b: &DraggableBlock) -> DraggableBlock {
    copy_block(b)
}

fn sink_like(b: &DraggableBlock) -> DraggableBlock {
    copy_block(b)
}

fn copy_port(p: &BlockConnectionNode) -> BlockConnectionNode {
    BlockConnectionNode {
        id: p.id,
        parent_id: p.parent_id,
        name: p.name.clone(),
        value: p.value.clone(),
        connection_type: p.connection_type,
        is_being_hovered: p.is_being_hovered,
        is_dragging_line: p.is_dragging_line,
    }
}

fn copy_block(b: &DraggableBlock) -> DraggableBlock {
    DraggableBlock {
        id: b.id,
        name: b.name.clone(),
        flatten_inputs: b.flatten_inputs,
        being_dragged_from: b.being_dragged_from,
        inputs: b.inputs.iter().map(copy_port).collect(),
        outputs: b.outputs.iter().map(copy_port).collect(),
    }
}

#[test]
fn connected_input_keeps_its_connection() {
    let mut ids = IdAllocator::new();
    let a = source(&mut ids, number());
    let b = source(&mut ids, number());
    let c = sink(&mut ids, number());
    let (a_id, a_out, b_id, b_out, c_in) = (a.id, a.outputs[0].id, b.id, b.outputs[0].id, c.inputs[0].id);
    let mut ctx = BlockContext::new(vec![a, b, c]);
    ctx.can_connect(a_id, a_out, ConnectionType::Outputs, &number(), &vec![c_in]);
    ctx.can_connect(b_id, b_out, ConnectionType::Outputs, &number(), &vec![c_in]);
    assert_eq!(ctx.connections, vec![(c_in, a_out)]);
    assert_eq!(ctx.inputs.len(), 1);
    assert_eq!(ctx.inputs.get(&c_in.0), Some(&a_id));
    assert_eq!(ctx.input_output.get(&c_in.0), Some(&a_out));
}

#[test]
fn nothing_under_the_pointer_connects_nothing() {
    let mut ids = IdAllocator::new();
    let a = source(&mut ids, number());
    let b = sink(&mut ids, number());
    let (a_id, a_out) = (a.id, a.outputs[0].id);
    let mut ctx = BlockContext::new(vec![a, b]);
    ctx.can_connect(a_id, a_out, ConnectionType::Outputs, &number(), &vec![]);
    assert!(ctx.connections.is_empty());
    // A port on the same side is no target either.
    ctx.can_connect(a_id, a_out, ConnectionType::Outputs, &number(), &vec![a_out]);
    assert!(ctx.connections.is_empty());
}

#[test]
fn update_orders_the_feeding_block_first() {
    let mut ids = IdAllocator::new();
    let consumer = sink(&mut ids, number());
    let producer = source(&mut ids, number());
    let (c_id, c_in, p_out) = (consumer.id, consumer.inputs[0].id, producer.outputs[0].id);
    let mut ctx = BlockContext::new(vec![consumer, producer]);
    assert_eq!(ctx.graph_order, vec![0, 1]);
    ctx.can_connect(c_id, c_in, ConnectionType::Inputs, &number(), &vec![p_out]);
    ctx.update(false);
    assert_eq!(ctx.graph_order, vec![0, 1]);
    ctx.update(true);
    assert_eq!(ctx.graph_order, vec![1, 0]);
    assert_eq!(ctx.graph.nodes[0].depends_on, vec![1]);
    assert_eq!(ctx.graph.nodes[1].is_dependent_of, vec![0]);
    let order = ctx.graph.calculate_order();
    assert!(ctx.graph.is_order_valid(&order));
}

#[test]
fn remove_connection_by_either_end() {
    let mut ids = IdAllocator::new();
    let a = source(&mut ids, number());
    let b = sink(&mut ids, number());
    let c = sink(&mut ids, number());
    let (a_id, a_out, b_in, c_in) = (a.id, a.outputs[0].id, b.inputs[0].id, c.inputs[0].id);
    let mut ctx = BlockContext::new(vec![a, b, c]);
    ctx.can_connect(a_id, a_out, ConnectionType::Outputs, &number(), &vec![b_in]);
    ctx.can_connect(a_id, a_out, ConnectionType::Outputs, &number(), &vec![c_in]);
    assert_eq!(ctx.connections, vec![(b_in, a_out), (c_in, a_out)]);
    ctx.remove_connection(c_in);
    assert_eq!(ctx.connections, vec![(b_in, a_out)]);
    assert_eq!(ctx.inputs.get(&c_in.0), None);
    assert_eq!(ctx.inputs.get(&b_in.0), Some(&a_id));
    // By the output end: the first connection made from it goes.
    ctx.can_connect(a_id, a_out, ConnectionType::Outputs, &number(), &vec![c_in]);
    ctx.remove_connection(a_out);
    assert_eq!(ctx.connections, vec![(c_in, a_out)]);
    assert_eq!(ctx.input_output.get(&b_in.0), None);
    assert_eq!(ctx.input_output.get(&c_in.0), Some(&a_out));
    ctx.remove_connection(Id(1000));
    assert_eq!(ctx.connections, vec![(c_in, a_out)]);
}

#[test]
fn only_one_thing_is_dragged_at_a_time() {
    let mut ctx = BlockContext::new(vec![]);
    assert!(ctx.can_drag(Id(3)));
    assert!(!ctx.can_drag(Id(4)));
    assert!(!ctx.can_drag(Id(3)));
    ctx.release_drag(Id(4));
    assert_eq!(ctx.currently_dragging, Some(3));
    ctx.release_drag(Id(3));
    assert_eq!(ctx.currently_dragging, None);
    assert!(ctx.can_drag(Id(4)));
}

#[test]
fn add_block_appends_to_the_order() {
    let mut ids = IdAllocator::new();
    let a = source(&mut ids, number());
    let b = sink(&mut ids, number());
    let b_id = b.id;
    let mut ctx = BlockContext::new(vec![a]);
    ctx.add_block(b);
    assert_eq!(ctx.graph_order, vec![0, 1]);
    assert_eq!(ctx.block_ids.get(&b_id.0), Some(&1));
    assert_eq!(ctx.blocks[1].as_ref().unwrap().inputs[0].parent_id, b_id);
}

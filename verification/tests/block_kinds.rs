use block_graph::block::ConnectionType;
use block_graph::kinds::{make_block, BlockRunContext, FlattenPointsBlock, PortPlan, RandomPointBlock};
use block_graph::id::{Id, IdAllocator};
use block_graph::value::{InputValue, OutputResult, ValueKind};
use rand::{Rng, SeedableRng};
use rand_chacha::ChaCha8Rng;

fn point(x: f32, y: f32) -> InputValue {
    InputValue::Point((x.to_bits(), y.to_bits()))
}

fn points_of(result: Option<Vec<OutputResult>>) -> Vec<(f32, f32)> {
    result
        .unwrap()
        .iter()
        .map(|r| match r {
            OutputResult::SingleValue(InputValue::Point((x, y))) => (f32::from_bits(*x), f32::from_bits(*y)),
            other => panic!("expected a point, found {other:?}"),
        })
        .collect()
}

#[test]
fn context_keeps_what_it_is_given() {
    let ctx = BlockRunContext::new(640f32.to_bits(), 480f32.to_bits(), 0.25f32.to_bits(), 101);
    assert_eq!(ctx.get_screen_space(), (640f32.to_bits(), 480f32.to_bits()));
    assert_eq!(f32::from_bits(ctx.percentage), 0.25);
}

#[test]
fn random_point_picks_by_the_coin() {
    let inputs = vec![point(0.0, 0.5), point(1.0, 1.5), point(2.0, 2.5), point(3.0, 3.5)];
    assert_eq!(points_of(Some(RandomPointBlock::pick(&inputs, true))), vec![(0.0, 0.5), (2.0, 2.5)]);
    assert_eq!(points_of(Some(RandomPointBlock::pick(&inputs, false))), vec![(1.0, 1.5), (3.0, 3.5)]);
    // A value that is no point counts as the origin.
    let mixed = vec![InputValue::Number(9), point(1.0, 1.0), point(2.0, 2.0), InputValue::Number(9)];
    assert_eq!(points_of(Some(RandomPointBlock::pick(&mixed, true))), vec![(0.0, 0.0), (2.0, 2.0)]);
    assert_eq!(points_of(Some(RandomPointBlock::pick(&mixed, false))), vec![(1.0, 1.0), (0.0, 0.0)]);
}

#[test]
fn random_point_follows_a_fair_coin_from_the_seed() {
    let inputs = vec![point(0.0, 0.0), point(1.0, 1.0), point(2.0, 2.0), point(3.0, 3.0)];
    let mut ctx = BlockRunContext::new(0, 0, 0, 101);
    let mut reference = ChaCha8Rng::seed_from_u64(101);
    let mut heads = 0;
    for _ in 0..200 {
        let expected =
            if reference.gen_bool(0.5) { vec![(0.0, 0.0), (2.0, 2.0)] } else { vec![(1.0, 1.0), (3.0, 3.0)] };
        if expected[0] == (0.0, 0.0) {
            heads += 1;
        }
        assert_eq!(points_of(RandomPointBlock::run(&inputs, &mut ctx)), expected);
    }
    assert!(heads > 50 && heads < 150);
}

#[test]
fn same_seed_gives_the_same_picks() {
    let inputs = vec![point(0.0, 0.0), point(1.0, 1.0), point(2.0, 2.0), point(3.0, 3.0)];
    let mut first = BlockRunContext::new(1, 2, 3, 7);
    let mut second = BlockRunContext::new(1, 2, 3, 7);
    let mut other = BlockRunContext::new(1, 2, 3, 8);
    let mut differs = false;
    for _ in 0..64 {
        let a = points_of(RandomPointBlock::run(&inputs, &mut first));
        let b = points_of(RandomPointBlock::run(&inputs, &mut second));
        let c = points_of(RandomPointBlock::run(&inputs, &mut other));
        assert_eq!(a, b);
        differs = differs || a != c;
    }
    assert!(differs);
    assert_eq!(first.screen_w, 1);
    assert_eq!(first.screen_h, 2);
    assert_eq!(first.percentage, 3);
}

#[test]
fn flatten_points_hands_a_list_of_points_on() {
    let mut ctx = BlockRunContext::new(0, 0, 0, 1);
    let list = InputValue::ListPoints(vec![(1, 2), (3, 4)]);
    match FlattenPointsBlock::run(&vec![list], &mut ctx) {
        Some(out) => {
            assert_eq!(out.len(), 1);
            match &out[0] {
                OutputResult::SingleValue(InputValue::ListPoints(ps)) => assert_eq!(ps, &vec![(1, 2), (3, 4)]),
                other => panic!("expected a list of points, found {other:?}"),
            }
        }
        None => panic!("expected a result"),
    }
    assert!(FlattenPointsBlock::run(&vec![point(1.0, 2.0)], &mut ctx).is_none());
    assert!(FlattenPointsBlock::run(&vec![InputValue::ListNumbers(vec![])], &mut ctx).is_none());
}

#[test]
fn flatten_points_block_has_one_port_each_side() {
    let mut ids = IdAllocator::new();
    ids.get_id();
    let b = FlattenPointsBlock::to_draggable_block(&mut ids);
    assert_eq!(b.id, Id(1));
    assert_eq!(b.name, "(1) FlattenPoints");
    assert!(b.flatten_inputs);
    assert_eq!(b.inputs.len(), 1);
    assert_eq!(b.outputs.len(), 1);
    assert_eq!(b.inputs[0].id, Id(2));
    assert_eq!(b.inputs[0].name, "pts");
    assert_eq!(b.inputs[0].value.kind(), ValueKind::Point);
    assert_eq!(b.inputs[0].connection_type, ConnectionType::Inputs);
    assert_eq!(b.outputs[0].id, Id(3));
    assert_eq!(b.outputs[0].name, "pts");
    assert_eq!(b.outputs[0].value.kind(), ValueKind::ListPoints);
    assert_eq!(b.outputs[0].connection_type, ConnectionType::Outputs);
    assert_eq!(ids.get_id(), Id(4));
}

#[test]
fn random_point_block_has_four_inputs_and_two_outputs() {
    let mut ids = IdAllocator::new();
    let b = RandomPointBlock::to_draggable_block(&mut ids);
    assert_eq!(b.id, Id(0));
    assert_eq!(b.name, "(0) RandomPoint");
    assert!(!b.flatten_inputs);
    let names: Vec<&str> = b.inputs.iter().map(|p| p.name.as_str()).collect();
    assert_eq!(names, vec!["pt0", "pt1", "pt2", "pt3"]);
    let ids_in: Vec<usize> = b.inputs.iter().map(|p| p.id.0).collect();
    assert_eq!(ids_in, vec![1, 2, 3, 4]);
    let names_out: Vec<&str> = b.outputs.iter().map(|p| p.name.as_str()).collect();
    assert_eq!(names_out, vec!["ptA", "ptB"]);
    assert!(b.inputs.iter().chain(b.outputs.iter()).all(|p| p.value.kind() == ValueKind::Point));
    assert_eq!(ids.get_id(), Id(7));
}

#[test]
fn make_block_hands_out_identities_block_first() {
    let mut ids = IdAllocator::new();
    ids.get_id();
    ids.get_id();
    let b = make_block(
        &mut ids,
        "Clock",
        vec![PortPlan::new("smoothing", InputValue::selection(&["none", "sigmoid"])), PortPlan::new("scale_by", InputValue::Number(7))],
        vec![PortPlan::new("time", InputValue::Number(0))],
        true,
    );
    assert_eq!(b.id, Id(2));
    assert_eq!(b.name, "(2) Clock");
    assert!(b.flatten_inputs);
    assert_eq!(b.being_dragged_from, None);
    assert_eq!(b.inputs.len(), 2);
    assert_eq!(b.inputs[0].id, Id(3));
    assert_eq!(b.inputs[0].name, "smoothing");
    assert_eq!(b.inputs[0].value.as_str(), "none");
    assert_eq!(b.inputs[0].connection_type, ConnectionType::Inputs);
    assert_eq!(b.inputs[1].id, Id(4));
    assert_eq!(b.inputs[1].name, "scale_by");
    assert_eq!(b.inputs[1].value.as_f64(), 7);
    assert_eq!(b.outputs.len(), 1);
    assert_eq!(b.outputs[0].id, Id(5));
    assert_eq!(b.outputs[0].name, "time");
    assert_eq!(b.outputs[0].connection_type, ConnectionType::Outputs);
    assert_eq!(b.outputs[0].parent_id, Id(0));
    assert!(!b.outputs[0].is_being_hovered && !b.outputs[0].is_dragging_line);
    assert_eq!(ids.get_id(), Id(6));
    let bare = make_block(&mut ids, "Bare", vec![], vec![], false);
    assert_eq!(bare.id, Id(7));
    assert_eq!(bare.name, "(7) Bare");
    assert!(bare.inputs.is_empty() && bare.outputs.is_empty());
}

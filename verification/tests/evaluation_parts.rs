use block_graph::block::{BlockConnectionNode, ConnectionType, DraggableBlock};
use block_graph::context::{find_accepting, holds_id, turned_round};
use block_graph::evaluation::{
    collect_numbers, collect_points, flatten_inputs, prepare_inputs, record_results, resolve_inputs,
    select_inputs, EvalError, InputResult, IteratedInput,
};
use block_graph::id::{Id, IdAllocator};
use block_graph::value::{copy_numbers, copy_points, copy_strings, copy_values, InputValue, OutputResult, ValueKind};
use std::collections::HashMap;

fn n(x: u64) -> InputValue {
    InputValue::Number(x)
}

fn bits(values: &[InputValue]) -> Vec<u64> {
    values.iter().map(|v| v.as_f64()).collect()
}

fn two_input_block(ids: &mut IdAllocator) -> DraggableBlock {
    let mut b = DraggableBlock::new(ids);
    b.inputs.push(BlockConnectionNode::new_with_input_type("a", n(11), ConnectionType::Inputs, ids));
    b.inputs.push(BlockConnectionNode::new_with_input_type("b", n(22), ConnectionType::Inputs, ids));
    b.outputs.push(BlockConnectionNode::new("out", ConnectionType::Outputs, ids));
    b
}

#[test]
fn copies_are_equal_to_what_they_copy() {
    assert_eq!(copy_numbers(&vec![1, 2, 3]), vec![1, 2, 3]);
    assert_eq!(copy_points(&vec![(1, 2), (3, 4)]), vec![(1, 2), (3, 4)]);
    assert_eq!(copy_strings(&vec!["a".to_string(), "bc".to_string()]), vec!["a".to_string(), "bc".to_string()]);
    assert_eq!(bits(&copy_values(&vec![n(5), n(6)])), vec![5, 6]);
    assert!(copy_numbers(&vec![]).is_empty());
}

#[test]
fn turned_round_is_last_to_first() {
    assert_eq!(turned_round(vec![1, 2, 3]), vec![3, 2, 1]);
    assert_eq!(turned_round(Vec::<u8>::new()), Vec::<u8>::new());
    assert_eq!(turned_round(vec!["x"]), vec!["x"]);
}

#[test]
fn holds_id_looks_through_the_list() {
    assert!(holds_id(&vec![Id(1), Id(5)], Id(5)));
    assert!(!holds_id(&vec![Id(1), Id(5)], Id(2)));
    assert!(!holds_id(&vec![], Id(0)));
}

#[test]
fn the_last_accepting_port_across_is_found() {
    let mut ids = IdAllocator::new();
    let mut b = two_input_block(&mut ids);
    b.adopt_ports();
    let (first, second, out) = (b.inputs[0].id, b.inputs[1].id, b.outputs[0].id);
    // A connection from an output looks at the inputs.
    assert_eq!(
        find_accepting(&b, ConnectionType::Outputs, ValueKind::Number, &vec![first, second, out]),
        Some((b.id, second))
    );
    assert_eq!(find_accepting(&b, ConnectionType::Outputs, ValueKind::Number, &vec![first]), Some((b.id, first)));
    assert_eq!(find_accepting(&b, ConnectionType::Outputs, ValueKind::Point, &vec![first, second]), None);
    assert_eq!(find_accepting(&b, ConnectionType::Outputs, ValueKind::Number, &vec![out]), None);
    // A connection from an input looks at the outputs.
    assert_eq!(find_accepting(&b, ConnectionType::Inputs, ValueKind::Number, &vec![first, out]), Some((b.id, out)));
}

#[test]
fn resolve_takes_defaults_and_what_outputs_hold() {
    let mut ids = IdAllocator::new();
    let b = two_input_block(&mut ids);
    let (first, second) = (b.inputs[0].id, b.inputs[1].id);
    let mut input_output = HashMap::new();
    let mut owners = HashMap::new();
    let mut outputs = HashMap::new();
    // Nothing connected: both inputs receive their own values.
    match resolve_inputs(&b, &input_output, &owners, &outputs) {
        Ok((inputs, iteration)) => {
            assert_eq!(iteration, None);
            assert!(matches!(&inputs[0], InputResult::SingleValue(v) if v.as_f64() == 11));
            assert!(matches!(&inputs[1], InputResult::SingleValue(v) if v.as_f64() == 22));
        }
        Err(e) => panic!("unexpected error {e:?}"),
    }
    // The second input is fed a sequence, the first a single value.
    input_output.insert(first.0, Id(100));
    input_output.insert(second.0, Id(200));
    owners.insert(first.0, Id(10));
    owners.insert(second.0, Id(20));
    outputs.insert(100, OutputResult::SingleValue(n(7)));
    outputs.insert(200, OutputResult::Iteration(vec![n(1), n(2), n(3)]));
    match resolve_inputs(&b, &input_output, &owners, &outputs) {
        Ok((inputs, iteration)) => {
            assert_eq!(iteration, Some(IteratedInput { input: second, source: Some(Id(20)), length: 3 }));
            assert!(matches!(&inputs[0], InputResult::SingleValue(v) if v.as_f64() == 7));
            assert!(matches!(&inputs[1], InputResult::Iteration(vs) if bits(vs) == vec![1, 2, 3]));
            assert_eq!(bits(&select_inputs(&inputs, 0)), vec![7, 1]);
            assert_eq!(bits(&select_inputs(&inputs, 2)), vec![7, 3]);
        }
        Err(e) => panic!("unexpected error {e:?}"),
    }
    assert!(matches!(prepare_inputs(&b, &input_output, &owners, &outputs), Ok((_, 3))));
    // Sequences of different lengths: each is told with its input, its source and its length.
    outputs.insert(100, OutputResult::Iteration(vec![n(1)]));
    owners.remove(&second.0);
    assert_eq!(
        resolve_inputs(&b, &input_output, &owners, &outputs).err(),
        Some(EvalError::LengthMismatch {
            block: b.id,
            first: IteratedInput { input: first, source: Some(Id(10)), length: 1 },
            second: IteratedInput { input: second, source: None, length: 3 },
        })
    );
    // The first error in the order of the inputs is the one that is told.
    outputs.remove(&100);
    outputs.insert(200, OutputResult::Iteration(vec![]));
    assert_eq!(
        resolve_inputs(&b, &input_output, &owners, &outputs).err(),
        Some(EvalError::MissingOutput { block: b.id, output: Id(100) })
    );
}

#[test]
fn flatten_makes_lists_by_the_first_value() {
    let inputs = vec![
        InputResult::SingleValue(n(9)),
        InputResult::Iteration(vec![n(1), InputValue::Point((5, 5)), n(3)]),
        InputResult::Iteration(vec![InputValue::Point((1, 2)), n(4)]),
        InputResult::Iteration(vec![]),
    ];
    match flatten_inputs(Id(1), inputs) {
        Ok(flat) => {
            assert_eq!(flat.len(), 4);
            assert!(matches!(&flat[0], InputResult::SingleValue(v) if v.as_f64() == 9));
            // A value of another kind enters the list as zero.
            assert!(matches!(&flat[1], InputResult::SingleValue(InputValue::ListNumbers(xs)) if xs == &vec![1, 0, 3]));
            assert!(
                matches!(&flat[2], InputResult::SingleValue(InputValue::ListPoints(ps)) if ps == &vec![(1, 2), (0, 0)])
            );
            assert!(matches!(&flat[3], InputResult::SingleValue(InputValue::ListNumbers(xs)) if xs.is_empty()));
        }
        Err(e) => panic!("unexpected error {e:?}"),
    }
    let lists = vec![InputResult::Iteration(vec![InputValue::ListNumbers(vec![1])])];
    assert_eq!(
        flatten_inputs(Id(4), lists).err(),
        Some(EvalError::UnsupportedFlatten { block: Id(4), kind: ValueKind::ListNumbers })
    );
    assert_eq!(collect_numbers(&vec![n(4), InputValue::Point((1, 1))]), vec![4, 0]);
    assert_eq!(collect_points(&vec![n(4), InputValue::Point((1, 1))]), vec![(0, 0), (1, 1)]);
}

#[test]
fn flattening_block_is_prepared_for_one_run() {
    let mut ids = IdAllocator::new();
    let mut b = two_input_block(&mut ids);
    b.flatten_inputs = true;
    let second = b.inputs[1].id;
    let mut input_output = HashMap::new();
    let owners = HashMap::new();
    let mut outputs = HashMap::new();
    input_output.insert(second.0, Id(200));
    outputs.insert(200, OutputResult::Iteration(vec![n(1), n(2), n(3)]));
    match prepare_inputs(&b, &input_output, &owners, &outputs) {
        Ok((inputs, iterations)) => {
            assert_eq!(iterations, 1);
            assert!(matches!(&inputs[1], InputResult::SingleValue(InputValue::ListNumbers(xs)) if xs == &vec![1, 2, 3]));
        }
        Err(e) => panic!("unexpected error {e:?}"),
    }
}

#[test]
fn results_are_kept_for_the_ports_at_their_index() {
    let mut ids = IdAllocator::new();
    let mut b = DraggableBlock::new(&mut ids);
    b.outputs.push(BlockConnectionNode::new("x", ConnectionType::Outputs, &mut ids));
    b.outputs.push(BlockConnectionNode::new("y", ConnectionType::Outputs, &mut ids));
    let (x, y) = (b.outputs[0].id, b.outputs[1].id);
    let mut outputs = HashMap::new();
    record_results(&mut outputs, &b.outputs, vec![OutputResult::SingleValue(n(1)), OutputResult::SingleValue(n(2))]);
    record_results(&mut outputs, &b.outputs, vec![OutputResult::SingleValue(n(3))]);
    assert!(matches!(outputs.get(&x.0), Some(OutputResult::Iteration(vs)) if bits(vs) == vec![1, 3]));
    assert!(matches!(outputs.get(&y.0), Some(OutputResult::SingleValue(v)) if v.as_f64() == 2));
    record_results(&mut outputs, &b.outputs, vec![]);
    assert_eq!(outputs.len(), 2);
}

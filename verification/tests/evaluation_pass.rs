use block_graph::block::{BlockConnectionNode, ConnectionType, DraggableBlock};
use block_graph::context::BlockContext;
use block_graph::evaluation::{merge_output, EvalError, Evaluation, IteratedInput, PassAction, PassEvent};
use block_graph::id::{Id, IdAllocator};
use block_graph::value::{Color, InputValue, OutputResult, ValueKind};
use std::collections::HashMap;

fn number(x: f64) -> InputValue {
    InputValue::Number(x.to_bits())
}

fn point(x: f32, y: f32) -> InputValue {
    InputValue::Point((x.to_bits(), y.to_bits()))
}

fn as_number(v: &InputValue) -> f64 {
    f64::from_bits(v.as_f64())
}

/// A block with `inputs` input ports and `outputs` output ports, all numbers.
fn block(ids: &mut IdAllocator, name: &str, inputs: usize, outputs: usize) -> DraggableBlock {
    let mut b = DraggableBlock::new(ids);
    b.name = name.to_string();
    for i in 0..inputs {
        b.inputs.push(BlockConnectionNode::new(&format!("in{i}"), ConnectionType::Inputs, ids));
    }
    for i in 0..outputs {
        b.outputs.push(BlockConnectionNode::new(&format!("out{i}"), ConnectionType::Outputs, ids));
    }
    b
}

/// Connects the input port `input` of the block `owner` to the output port `output`.
fn wire(ctx: &mut BlockContext, owner: Id, input: Id, output: Id, kind: &InputValue) {
    ctx.can_connect(owner, input, ConnectionType::Inputs, kind, &vec![output]);
    ctx.update(true);
}

/// Runs one pass, calling `behavior` for each block that the pass asks for.
fn drive(
    ctx: &BlockContext,
    mut behavior: impl FnMut(usize, &Vec<InputValue>) -> Option<Vec<OutputResult>>,
) -> Result<(), EvalError> {
    let mut pass = Evaluation::new();
    let mut event = PassEvent::Start;
    loop {
        match ctx.run(&mut pass, event) {
            PassAction::Call { block_index, inputs } => {
                let returned = behavior(block_index, &inputs);
                if let Some(results) = &returned {
                    let outputs = ctx.blocks[block_index].as_ref().unwrap().outputs.len();
                    assert!(results.len() <= outputs);
                }
                event = PassEvent::Returned(returned);
            }
            PassAction::Finished => return Ok(()),
            PassAction::Failed(e) => return Err(e),
        }
    }
}

fn numbers(values: &[f64]) -> OutputResult {
    OutputResult::Iteration(values.iter().map(|x| number(*x)).collect())
}

/// Two sources that each feed one input of a third block.
fn two_sources() -> (BlockContext, Id, Id, Id, Id, Id) {
    let mut ids = IdAllocator::new();
    let a = block(&mut ids, "a", 0, 1);
    let b = block(&mut ids, "b", 0, 1);
    let c = block(&mut ids, "c", 2, 0);
    let (a_id, a_out, b_id, b_out) = (a.id, a.outputs[0].id, b.id, b.outputs[0].id);
    let (c_id, c_in0, c_in1) = (c.id, c.inputs[0].id, c.inputs[1].id);
    let mut ctx = BlockContext::new(vec![a, b, c]);
    wire(&mut ctx, c_id, c_in0, a_out, &number(0.0));
    wire(&mut ctx, c_id, c_in1, b_out, &number(0.0));
    (ctx, c_id, c_in0, c_in1, a_id, b_id)
}

#[test]
fn iterations_of_different_lengths_fail() {
    let (ctx, c_id, c_in0, c_in1, a_id, b_id) = two_sources();
    let mut calls_of_c = 0;
    let result = drive(&ctx, |index, _inputs| match index {
        0 => Some(vec![numbers(&[1.0, 2.0, 3.0])]),
        1 => Some(vec![numbers(&[1.0, 2.0, 3.0, 4.0])]),
        _ => {
            calls_of_c += 1;
            None
        }
    });
    assert_eq!(
        result,
        Err(EvalError::LengthMismatch {
            block: c_id,
            first: IteratedInput { input: c_in0, source: Some(a_id), length: 3 },
            second: IteratedInput { input: c_in1, source: Some(b_id), length: 4 },
        })
    );
    assert_eq!(calls_of_c, 0);
    let message = result.unwrap_err().message();
    assert_eq!(
        message,
        format!(
            "Block {} depends on multiple iterations whose lengths dont match. \
             Id({}) fed by block {} has 3 != Id({}) fed by block {} has 4",
            c_id.0, c_in0.0, a_id.0, c_in1.0, b_id.0
        )
    );
}

#[test]
fn iterations_of_equal_length_run_once_for_each_value() {
    let (ctx, _, _, _, _, _) = two_sources();
    let mut seen: Vec<(f64, f64)> = vec![];
    let result = drive(&ctx, |index, inputs| match index {
        0 => Some(vec![numbers(&[1.0, 2.0, 3.0, 4.0, 5.0])]),
        1 => Some(vec![numbers(&[10.0, 20.0, 30.0, 40.0, 50.0])]),
        _ => {
            seen.push((as_number(&inputs[0]), as_number(&inputs[1])));
            None
        }
    });
    assert_eq!(result, Ok(()));
    assert_eq!(seen, vec![(1.0, 10.0), (2.0, 20.0), (3.0, 30.0), (4.0, 40.0), (5.0, 50.0)]);
}

#[test]
fn single_values_merge_into_an_iteration_in_call_order() {
    // a hands out a sequence of two, b runs twice and returns a single value
    // each time, c sees what b's output holds after both runs.
    let mut ids = IdAllocator::new();
    let a = block(&mut ids, "a", 0, 1);
    let b = block(&mut ids, "b", 1, 1);
    let mut c = block(&mut ids, "c", 1, 0);
    c.flatten_inputs = true;
    let (a_out, b_id, b_in, b_out) = (a.outputs[0].id, b.id, b.inputs[0].id, b.outputs[0].id);
    let (c_id, c_in) = (c.id, c.inputs[0].id);
    let mut ctx = BlockContext::new(vec![a, b, c]);
    wire(&mut ctx, b_id, b_in, a_out, &number(0.0));
    wire(&mut ctx, c_id, c_in, b_out, &number(0.0));
    let mut runs_of_b = 0;
    let mut seen_by_c: Vec<Vec<f64>> = vec![];
    let result = drive(&ctx, |index, inputs| match index {
        0 => Some(vec![numbers(&[0.0, 0.0])]),
        1 => {
            runs_of_b += 1;
            let value = if runs_of_b == 1 { 3.0 } else { 7.0 };
            Some(vec![OutputResult::SingleValue(number(value))])
        }
        _ => {
            match &inputs[0] {
                InputValue::ListNumbers(xs) => {
                    seen_by_c.push(xs.iter().map(|x| f64::from_bits(*x)).collect())
                }
                other => panic!("expected a list of numbers, found {other:?}"),
            }
            None
        }
    });
    assert_eq!(result, Ok(()));
    assert_eq!(runs_of_b, 2);
    assert_eq!(seen_by_c, vec![vec![3.0, 7.0]]);
}

#[test]
fn merge_keeps_single_then_iteration_then_single() {
    let mut outputs: HashMap<usize, OutputResult> = HashMap::new();
    merge_output(&mut outputs, Id(9), OutputResult::SingleValue(number(3.0)));
    match outputs.get(&9) {
        Some(OutputResult::SingleValue(v)) => assert_eq!(as_number(v), 3.0),
        other => panic!("expected a single value, found {other:?}"),
    }
    merge_output(&mut outputs, Id(9), OutputResult::SingleValue(number(7.0)));
    merge_output(&mut outputs, Id(9), numbers(&[8.0, 9.0]));
    merge_output(&mut outputs, Id(9), OutputResult::SingleValue(number(10.0)));
    match outputs.get(&9) {
        Some(OutputResult::Iteration(vs)) => {
            let got: Vec<f64> = vs.iter().map(as_number).collect();
            assert_eq!(got, vec![3.0, 7.0, 8.0, 9.0, 10.0]);
        }
        other => panic!("expected an iteration, found {other:?}"),
    }
    assert_eq!(outputs.len(), 1);
}

#[test]
fn flatten_hands_all_points_over_in_one_run() {
    let mut ids = IdAllocator::new();
    let mut a = block(&mut ids, "grid", 0, 1);
    a.outputs[0].value = point(0.0, 0.0);
    let mut f = block(&mut ids, "flatten", 1, 1);
    f.inputs[0].value = point(0.0, 0.0);
    f.flatten_inputs = true;
    let (a_out, f_id, f_in) = (a.outputs[0].id, f.id, f.inputs[0].id);
    let mut ctx = BlockContext::new(vec![a, f]);
    wire(&mut ctx, f_id, f_in, a_out, &point(0.0, 0.0));
    let mut runs = 0;
    let mut seen: Vec<(f32, f32)> = vec![];
    let result = drive(&ctx, |index, inputs| match index {
        0 => Some(vec![OutputResult::Iteration(vec![
            point(1.0, 2.0),
            point(3.0, 4.0),
            point(5.0, 6.0),
            point(7.0, 8.0),
        ])]),
        _ => {
            runs += 1;
            assert_eq!(inputs.len(), 1);
            for (x, y) in inputs[0].as_list_points() {
                seen.push((f32::from_bits(*x), f32::from_bits(*y)));
            }
            assert!(matches!(inputs[0], InputValue::ListPoints(_)));
            None
        }
    });
    assert_eq!(result, Ok(()));
    assert_eq!(runs, 1);
    assert_eq!(seen, vec![(1.0, 2.0), (3.0, 4.0), (5.0, 6.0), (7.0, 8.0)]);
}

#[test]
fn flatten_of_colors_is_refused() {
    let mut ids = IdAllocator::new();
    let a = block(&mut ids, "colors", 0, 1);
    let mut f = block(&mut ids, "flatten", 1, 0);
    f.flatten_inputs = true;
    let (a_out, f_id, f_in) = (a.outputs[0].id, f.id, f.inputs[0].id);
    let mut ctx = BlockContext::new(vec![a, f]);
    wire(&mut ctx, f_id, f_in, a_out, &number(0.0));
    let result = drive(&ctx, |index, _| match index {
        0 => Some(vec![OutputResult::Iteration(vec![InputValue::Color(Color {
            r: 1,
            g: 2,
            b: 3,
            a: 4,
        })])]),
        _ => panic!("the flattening block must not run"),
    });
    assert_eq!(result, Err(EvalError::UnsupportedFlatten { block: f_id, kind: ValueKind::Color }));
}

#[test]
fn empty_iteration_flattens_to_an_empty_list_of_numbers() {
    let mut ids = IdAllocator::new();
    let a = block(&mut ids, "none", 0, 1);
    let mut f = block(&mut ids, "flatten", 1, 0);
    f.flatten_inputs = true;
    let (a_out, f_id, f_in) = (a.outputs[0].id, f.id, f.inputs[0].id);
    let mut ctx = BlockContext::new(vec![a, f]);
    wire(&mut ctx, f_id, f_in, a_out, &number(0.0));
    let mut runs = 0;
    let result = drive(&ctx, |index, inputs| match index {
        0 => Some(vec![OutputResult::Iteration(vec![])]),
        _ => {
            runs += 1;
            assert!(matches!(&inputs[0], InputValue::ListNumbers(xs) if xs.is_empty()));
            None
        }
    });
    assert_eq!(result, Ok(()));
    assert_eq!(runs, 1);
}

#[test]
fn empty_iteration_without_flatten_runs_the_block_not_at_all() {
    let mut ids = IdAllocator::new();
    let a = block(&mut ids, "none", 0, 1);
    let b = block(&mut ids, "b", 1, 0);
    let (a_out, b_id, b_in) = (a.outputs[0].id, b.id, b.inputs[0].id);
    let mut ctx = BlockContext::new(vec![a, b]);
    wire(&mut ctx, b_id, b_in, a_out, &number(0.0));
    let mut runs = 0;
    let result = drive(&ctx, |index, _| match index {
        0 => Some(vec![OutputResult::Iteration(vec![])]),
        _ => {
            runs += 1;
            None
        }
    });
    assert_eq!(result, Ok(()));
    assert_eq!(runs, 0);
}

#[test]
fn missing_output_fails_the_pass() {
    let mut ids = IdAllocator::new();
    let a = block(&mut ids, "silent", 0, 1);
    let b = block(&mut ids, "b", 1, 0);
    let (a_out, b_id, b_in) = (a.outputs[0].id, b.id, b.inputs[0].id);
    let mut ctx = BlockContext::new(vec![a, b]);
    wire(&mut ctx, b_id, b_in, a_out, &number(0.0));
    let result = drive(&ctx, |index, _| match index {
        0 => None,
        _ => panic!("b must not run"),
    });
    assert_eq!(result, Err(EvalError::MissingOutput { block: b_id, output: a_out }));
}

#[test]
fn unconnected_input_receives_its_own_value() {
    let mut ids = IdAllocator::new();
    let mut a = block(&mut ids, "a", 2, 0);
    a.inputs[0].value = number(4.5);
    a.inputs[1].value = point(1.0, -1.0);
    let ctx = BlockContext::new(vec![a]);
    let mut seen = vec![];
    let result = drive(&ctx, |_, inputs| {
        seen.push((as_number(&inputs[0]), inputs[1].as_point()));
        None
    });
    assert_eq!(result, Ok(()));
    assert_eq!(seen, vec![(4.5, (1.0f32.to_bits(), (-1.0f32).to_bits()))]);
}

#[test]
fn two_passes_over_one_graph_ask_for_the_same_calls() {
    let (ctx, _, _, _, _, _) = two_sources();
    let mut traces: Vec<Vec<(usize, Vec<u64>)>> = vec![];
    for _ in 0..2 {
        let mut trace = vec![];
        let result = drive(&ctx, |index, inputs| {
            trace.push((index, inputs.iter().map(|v| v.as_f64()).collect()));
            match index {
                0 => Some(vec![numbers(&[1.0, 2.0])]),
                1 => Some(vec![numbers(&[3.0, 4.0])]),
                _ => None,
            }
        });
        assert_eq!(result, Ok(()));
        traces.push(trace);
    }
    assert_eq!(traces[0], traces[1]);
    assert_eq!(traces[0].len(), 4);
    assert_eq!(traces[0][2], (2, vec![1.0f64.to_bits(), 3.0f64.to_bits()]));
    assert_eq!(traces[0][3], (2, vec![2.0f64.to_bits(), 4.0f64.to_bits()]));
}

#[test]
fn a_finished_pass_stays_finished() {
    let ctx = BlockContext::new(vec![]);
    let mut pass = Evaluation::new();
    assert!(matches!(ctx.run(&mut pass, PassEvent::Start), PassAction::Finished));
    assert!(matches!(ctx.run(&mut pass, PassEvent::Start), PassAction::Finished));
}

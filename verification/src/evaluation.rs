//! One pass over the blocks of a graph.
//!
//! A pass visits the blocks in the order of their evaluation. For each block
//! it finds what every input receives, hands the inputs out, once or once
//! for each value of a sequence, and keeps what comes back for the blocks
//! that follow. The blocks themselves run outside of this library: a pass
//! says which block to call and with what, and is told what the block
//! returned.

use crate::block::{BlockView, DraggableBlock, PortView};
use crate::context::{turned_round, BlockContext, ContextView};
use crate::id::Id;
use crate::value::{
    copy_values, results_view, values_view, InputValue, OutputResult, OutputView, ValueKind,
    ValueView,
};
use std::collections::HashMap;
use vstd::prelude::*;

verus! {

/// An input that receives a sequence of values: the input, the block that
/// feeds it, where the connections tell which block that is, and the
/// number of values.
#[derive(Clone, Copy, Debug, PartialEq, Eq)]
pub struct IteratedInput {
    pub input: Id,
    pub source: Option<Id>,
    pub length: usize,
}

/// Why a pass came to an end before its last block.
#[derive(Clone, Copy, Debug, PartialEq, Eq)]
pub enum EvalError {
    /// Two inputs of a block receive sequences of different lengths.
    LengthMismatch { block: Id, first: IteratedInput, second: IteratedInput },
    /// An input of a block is connected to an output that has no value yet.
    MissingOutput { block: Id, output: Id },
    /// A block that wants its inputs as lists receives a sequence of values
    /// of which no list can be made.
    UnsupportedFlatten { block: Id, kind: ValueKind },
}

/// What an input of a block receives: one value, or a sequence of values of
/// which each run of the block sees one.
#[derive(Debug)]
pub enum InputResult {
    SingleValue(InputValue),
    Iteration(Vec<InputValue>),
}

impl View for InputResult {
    type V = OutputView;

    open spec fn view(&self) -> OutputView {
        match *self {
            InputResult::SingleValue(v) => OutputView::SingleValue(v@),
            InputResult::Iteration(vs) => OutputView::Iteration(values_view(vs@)),
        }
    }
}

/// Where a pass stands.
#[derive(Clone, Copy, Debug, PartialEq, Eq)]
pub enum Phase {
    /// Nothing has happened yet.
    Idle,
    /// A block has been called and has not returned yet.
    Calling,
    /// Every block has run.
    Finished,
    /// A block could not be run; no block after it is.
    Failed(EvalError),
}

/// The state of one pass.
pub struct Evaluation {
    /// What the output ports hold, by the identity of the port.
    pub outputs: HashMap<usize, OutputResult>,
    pub phase: Phase,
    /// Where in the order of evaluation the pass stands.
    pub position: usize,
    /// Index of the block that is being called.
    pub block_index: usize,
    /// The inputs of the block that is being called.
    pub inputs: Vec<InputResult>,
    /// The number of runs that the block that is being called has to make.
    pub iterations: usize,
    /// The number of runs that it has made.
    pub iteration: usize,
}

/// The mathematical content of an [`Evaluation`].
pub ghost struct PassView {
    pub outputs: Map<usize, OutputView>,
    pub phase: Phase,
    pub position: nat,
    pub block_index: usize,
    pub inputs: Seq<OutputView>,
    pub iterations: usize,
    pub iteration: usize,
}

impl View for Evaluation {
    type V = PassView;

    open spec fn view(&self) -> PassView {
        PassView {
            outputs: outputs_view(self.outputs@),
            phase: self.phase,
            position: self.position as nat,
            block_index: self.block_index,
            inputs: inputs_view(self.inputs@),
            iterations: self.iterations,
            iteration: self.iteration,
        }
    }
}

/// What a pass is told.
#[derive(Debug)]
pub enum PassEvent {
    /// Go on. This is what begins a pass.
    Start,
    /// The block that was called has returned: nothing, or one result for
    /// each of its first output ports.
    Returned(Option<Vec<OutputResult>>),
}

/// The mathematical content of a [`PassEvent`].
pub ghost enum EventView {
    Start,
    Returned(Option<Seq<OutputView>>),
}

impl View for PassEvent {
    type V = EventView;

    open spec fn view(&self) -> EventView {
        match *self {
            PassEvent::Start => EventView::Start,
            PassEvent::Returned(None) => EventView::Returned(None),
            PassEvent::Returned(Some(results)) => EventView::Returned(Some(results_view(results@))),
        }
    }
}

/// What a pass asks for.
#[derive(Debug)]
pub enum PassAction {
    /// Run the block at `block_index` on `inputs`, and tell what it returned.
    Call { block_index: usize, inputs: Vec<InputValue> },
    /// The pass is over: every block has run.
    Finished,
    /// The pass is over: a block could not be run.
    Failed(EvalError),
}

/// The mathematical content of a [`PassAction`].
pub ghost enum ActionView {
    Call { block_index: usize, inputs: Seq<ValueView> },
    Finished,
    Failed(EvalError),
}

impl View for PassAction {
    type V = ActionView;

    open spec fn view(&self) -> ActionView {
        match *self {
            PassAction::Call { block_index, inputs } => ActionView::Call {
                block_index,
                inputs: values_view(inputs@),
            },
            PassAction::Finished => ActionView::Finished,
            PassAction::Failed(e) => ActionView::Failed(e),
        }
    }
}

/// The inputs of a list, each as its content.
pub open spec fn inputs_view(inputs: Seq<InputResult>) -> Seq<OutputView> {
    Seq::new(inputs.len(), |k: int| inputs[k]@)
}

/// The results held for the output ports, each as its content.
pub open spec fn outputs_view(outputs: Map<usize, OutputResult>) -> Map<usize, OutputView> {
    Map::new(|id: usize| outputs.contains_key(id), |id: usize| outputs[id]@)
}

/// What the inputs of a block receive, as far as they are resolved, and the
/// last input among them that receives a sequence, with its length.
pub ghost struct Resolution {
    pub inputs: Seq<OutputView>,
    pub iteration: Option<IteratedInput>,
}

/// The input that was last found to receive a sequence.
pub open spec fn input_of(iteration: Option<IteratedInput>) -> Id {
    match iteration {
        Some(last) => last.input,
        None => Id(0),
    }
}

/// The length of the sequences that the inputs receive; one where no input
/// receives a sequence.
pub open spec fn length_of(iteration: Option<IteratedInput>) -> usize {
    match iteration {
        Some(last) => last.length,
        None => 1,
    }
}

/// The block that feeds the input `input`, as the connections have it.
pub open spec fn owner_of(owners: Map<usize, Id>, input: Id) -> Option<Id> {
    if owners.contains_key(input.0) {
        Some(owners[input.0])
    } else {
        None
    }
}

/// Resolves one more input, `port`, of the block `block`. A connected input
/// receives what its output holds; it is an error if the output holds
/// nothing, or a sequence that is not as long as the one before. That error
/// tells of both sequences: the input that each arrives at, the block that
/// each comes from, and its length. An input without a connection receives
/// its own value.
pub open spec fn resolve_port(
    block: Id,
    port: PortView,
    input_output: Map<usize, Id>,
    owners: Map<usize, Id>,
    outputs: Map<usize, OutputView>,
    so_far: Resolution,
) -> Result<Resolution, EvalError> {
    if input_output.contains_key(port.id.0) {
        let source = input_output[port.id.0];
        if outputs.contains_key(source.0) {
            match outputs[source.0] {
                OutputView::SingleValue(v) => Ok(
                    Resolution {
                        inputs: so_far.inputs.push(OutputView::SingleValue(v)),
                        iteration: so_far.iteration,
                    },
                ),
                OutputView::Iteration(vs) => {
                    if so_far.iteration is Some && length_of(so_far.iteration) != vs.len() {
                        Err(
                            EvalError::LengthMismatch {
                                block,
                                first: so_far.iteration.unwrap(),
                                second: IteratedInput {
                                    input: port.id,
                                    source: owner_of(owners, port.id),
                                    length: vs.len() as usize,
                                },
                            },
                        )
                    } else {
                        Ok(
                            Resolution {
                                inputs: so_far.inputs.push(OutputView::Iteration(vs)),
                                iteration: Some(
                                    IteratedInput {
                                        input: port.id,
                                        source: owner_of(owners, port.id),
                                        length: vs.len() as usize,
                                    },
                                ),
                            },
                        )
                    }
                },
            }
        } else {
            Err(EvalError::MissingOutput { block, output: source })
        }
    } else {
        Ok(
            Resolution {
                inputs: so_far.inputs.push(OutputView::SingleValue(port.value)),
                iteration: so_far.iteration,
            },
        )
    }
}

/// Resolves the first `count` inputs of `block`, in their order. The first
/// error ends it.
pub open spec fn resolve_first(
    block: BlockView,
    input_output: Map<usize, Id>,
    owners: Map<usize, Id>,
    outputs: Map<usize, OutputView>,
    count: nat,
) -> Result<Resolution, EvalError>
    decreases count,
{
    if count == 0 {
        Ok(Resolution { inputs: Seq::empty(), iteration: None })
    } else {
        match resolve_first(block, input_output, owners, outputs, (count - 1) as nat) {
            Err(e) => Err(e),
            Ok(so_far) => resolve_port(
                block.id,
                block.inputs[count - 1],
                input_output,
                owners,
                outputs,
                so_far,
            ),
        }
    }
}

/// The one value that a block with flattened inputs sees in place of
/// `input`: a sequence of numbers becomes a list of numbers, a sequence of
/// points a list of points, an empty sequence an empty list of numbers. The
/// first value of a sequence decides which list it is; a value of another
/// kind enters the list as zero.
pub open spec fn flatten_one(block: Id, input: OutputView) -> Result<OutputView, EvalError> {
    match input {
        OutputView::SingleValue(v) => Ok(input),
        OutputView::Iteration(vs) => {
            if vs.len() == 0 {
                Ok(OutputView::SingleValue(ValueView::ListNumbers(Seq::empty())))
            } else if vs[0] is Number {
                Ok(
                    OutputView::SingleValue(
                        ValueView::ListNumbers(Seq::new(vs.len(), |k: int| vs[k].number_or_zero())),
                    ),
                )
            } else if vs[0] is Point {
                Ok(
                    OutputView::SingleValue(
                        ValueView::ListPoints(Seq::new(vs.len(), |k: int| vs[k].point_or_origin())),
                    ),
                )
            } else {
                Err(EvalError::UnsupportedFlatten { block, kind: vs[0].kind() })
            }
        },
    }
}

/// Flattens the first `count` of `inputs`, in their order. The first error
/// ends it.
pub open spec fn flatten_first(block: Id, inputs: Seq<OutputView>, count: nat) -> Result<
    Seq<OutputView>,
    EvalError,
>
    decreases count,
{
    if count == 0 {
        Ok(Seq::empty())
    } else {
        match flatten_first(block, inputs, (count - 1) as nat) {
            Err(e) => Err(e),
            Ok(so_far) => match flatten_one(block, inputs[count - 1]) {
                Err(e) => Err(e),
                Ok(flat) => Ok(so_far.push(flat)),
            },
        }
    }
}

/// The inputs of a block, ready for its runs, and the number of runs.
pub ghost struct Prepared {
    pub inputs: Seq<OutputView>,
    pub iterations: usize,
}

/// What the runs of `block` are made from: its inputs, resolved and, where
/// the block wants that, flattened. A block runs once; if an input receives
/// a sequence that is not flattened, it runs once for each value.
pub open spec fn prepare(
    block: BlockView,
    input_output: Map<usize, Id>,
    owners: Map<usize, Id>,
    outputs: Map<usize, OutputView>,
) -> Result<Prepared, EvalError> {
    match resolve_first(block, input_output, owners, outputs, block.inputs.len()) {
        Err(e) => Err(e),
        Ok(resolved) => {
            if block.flatten_inputs {
                match flatten_first(block.id, resolved.inputs, resolved.inputs.len()) {
                    Err(e) => Err(e),
                    Ok(flat) => Ok(Prepared { inputs: flat, iterations: 1 }),
                }
            } else {
                Ok(
                    Prepared {
                        inputs: resolved.inputs,
                        iterations: length_of(resolved.iteration),
                    },
                )
            }
        },
    }
}

/// Every sequence among `inputs` has `length` values.
pub open spec fn uniform(inputs: Seq<OutputView>, length: int) -> bool {
    forall|k: int|
        0 <= k < inputs.len() && (#[trigger] inputs[k]) is Iteration ==> inputs[k]->Iteration_0.len()
            == length
}

/// Every sequence among `inputs` has a value at the index `i`.
pub open spec fn reaches_all(inputs: Seq<OutputView>, i: int) -> bool {
    forall|k: int|
        0 <= k < inputs.len() && (#[trigger] inputs[k]) is Iteration ==> 0 <= i
            < inputs[k]->Iteration_0.len()
}

/// No input among `inputs` is a sequence.
pub open spec fn all_single(inputs: Seq<OutputView>) -> bool {
    forall|k: int| 0 <= k < inputs.len() ==> (#[trigger] inputs[k]) is SingleValue
}

/// No output holds a sequence longer than a machine can hold.
pub open spec fn bounded(outputs: Map<usize, OutputView>) -> bool {
    forall|id: usize|
        outputs.contains_key(id) ==> (#[trigger] outputs[id]).elements().len() <= usize::MAX
}

/// What run number `i` of a block sees of `input`.
pub open spec fn call_input(input: OutputView, i: int) -> ValueView {
    match input {
        OutputView::SingleValue(v) => v,
        OutputView::Iteration(vs) => vs[i],
    }
}

/// What run number `i` of a block is handed: each single value as it is,
/// and of each sequence the value at `i`.
pub open spec fn call_inputs(inputs: Seq<OutputView>, i: int) -> Seq<ValueView> {
    Seq::new(inputs.len(), |k: int| call_input(inputs[k], i))
}

/// What an output holds after `fresh` arrived where it held `held` already:
/// the values of both, the earlier ones first.
pub open spec fn merged(held: OutputView, fresh: OutputView) -> OutputView {
    OutputView::Iteration(held.elements() + fresh.elements())
}

/// The outputs after `result` arrived for the output `id`.
pub open spec fn record_one(outputs: Map<usize, OutputView>, id: Id, result: OutputView) -> Map<
    usize,
    OutputView,
> {
    if outputs.contains_key(id.0) {
        outputs.insert(id.0, merged(outputs[id.0], result))
    } else {
        outputs.insert(id.0, result)
    }
}

/// The outputs after the first `count` of `results` arrived, each for the
/// output port at its index.
pub open spec fn record_first(
    outputs: Map<usize, OutputView>,
    ports: Seq<PortView>,
    results: Seq<OutputView>,
    count: nat,
) -> Map<usize, OutputView>
    decreases count,
{
    if count == 0 {
        outputs
    } else {
        record_one(
            record_first(outputs, ports, results, (count - 1) as nat),
            ports[count - 1].id,
            results[count - 1],
        )
    }
}

/// A pass that calls no block, in the phase `phase`.
pub open spec fn resting(outputs: Map<usize, OutputView>, phase: Phase, position: nat) -> PassView {
    PassView {
        outputs,
        phase,
        position,
        block_index: 0,
        inputs: Seq::empty(),
        iterations: 0,
        iteration: 0,
    }
}

/// Looks for the next block to call, from `position` on. A place in the
/// order without a block is passed over, and so is a block that has no run
/// to make. A block whose inputs cannot be made ready ends the pass.
pub open spec fn seek(ctx: ContextView, outputs: Map<usize, OutputView>, position: nat) -> (
    PassView,
    ActionView,
)
    decreases ctx.graph_order.len() - position,
{
    if position >= ctx.graph_order.len() {
        (resting(outputs, Phase::Finished, position), ActionView::Finished)
    } else {
        let block_index = ctx.block_index_at(position as int);
        match ctx.blocks[block_index as int] {
            None => seek(ctx, outputs, position + 1),
            Some(block) => match prepare(block, ctx.input_output, ctx.inputs, outputs) {
                Err(e) => (resting(outputs, Phase::Failed(e), position), ActionView::Failed(e)),
                Ok(p) => {
                    if p.iterations == 0 {
                        seek(ctx, outputs, position + 1)
                    } else {
                        (
                            PassView {
                                outputs,
                                phase: Phase::Calling,
                                position,
                                block_index,
                                inputs: p.inputs,
                                iterations: p.iterations,
                                iteration: 0,
                            },
                            ActionView::Call { block_index, inputs: call_inputs(p.inputs, 0) },
                        )
                    }
                },
            },
        }
    }
}

/// The pass after it took note of `event`: what a block returned is kept
/// for the output ports of that block, and the run is counted.
pub open spec fn after_event(ctx: ContextView, pass: PassView, event: EventView) -> PassView {
    match (pass.phase, event) {
        (Phase::Calling, EventView::Returned(Some(results))) => PassView {
            outputs: record_first(
                pass.outputs,
                ctx.blocks[pass.block_index as int].unwrap().outputs,
                results,
                results.len(),
            ),
            iteration: (pass.iteration + 1) as usize,
            ..pass
        },
        (Phase::Calling, _) => PassView { iteration: (pass.iteration + 1) as usize, ..pass },
        _ => pass,
    }
}

/// What the pass does next: the next run of the block that it is calling,
/// or the first run of the next block that has one, or nothing more.
pub open spec fn advance(ctx: ContextView, pass: PassView) -> (PassView, ActionView) {
    match pass.phase {
        Phase::Idle => seek(ctx, pass.outputs, 0),
        Phase::Calling => {
            if pass.iteration < pass.iterations {
                (
                    pass,
                    ActionView::Call {
                        block_index: pass.block_index,
                        inputs: call_inputs(pass.inputs, pass.iteration as int),
                    },
                )
            } else {
                seek(ctx, pass.outputs, pass.position + 1)
            }
        },
        Phase::Finished => (pass, ActionView::Finished),
        Phase::Failed(e) => (pass, ActionView::Failed(e)),
    }
}

/// One step of a pass: from where the pass stands and what it is told, to
/// where it stands then and what it asks for.
pub open spec fn step(ctx: ContextView, pass: PassView, event: EventView) -> (PassView, ActionView) {
    advance(ctx, after_event(ctx, pass, event))
}

/// What holds of a pass over `ctx` while it is calling a block: the block
/// exists, has a run left to make, and its inputs fit the number of its
/// runs.
pub open spec fn pass_wf(ctx: ContextView, pass: PassView) -> bool {
    pass.phase is Calling ==> {
        &&& pass.position < ctx.graph_order.len()
        &&& pass.block_index < ctx.blocks.len()
        &&& ctx.blocks[pass.block_index as int] is Some
        &&& pass.iteration < pass.iterations
        &&& uniform(pass.inputs, pass.iterations as int)
    }
}

/// A pass may be told `event`: that a block returned only while it is
/// calling one, and no more results than the block has output ports.
pub open spec fn expects(ctx: ContextView, pass: PassView, event: EventView) -> bool {
    &&& pass.phase is Calling <==> event is Returned
    &&& event matches EventView::Returned(Some(results)) ==> results.len()
        <= ctx.blocks[pass.block_index as int].unwrap().outputs.len()
}

/// The pass after it was told `events`, one after the other, and what it
/// asked for after each.
pub open spec fn replay(ctx: ContextView, pass: PassView, events: Seq<EventView>) -> (
    PassView,
    Seq<ActionView>,
)
    decreases events.len(),
{
    if events.len() == 0 {
        (pass, Seq::empty())
    } else {
        let (before, actions) = replay(ctx, pass, events.drop_last());
        let (after, action) = step(ctx, before, events.last());
        (after, actions.push(action))
    }
}

/// The input at `k` of `block` is fed by an output that holds a sequence of
/// `length` values.
pub open spec fn receives_sequence(
    block: BlockView,
    input_output: Map<usize, Id>,
    outputs: Map<usize, OutputView>,
    k: int,
    length: int,
) -> bool {
    &&& 0 <= k < block.inputs.len()
    &&& input_output.contains_key(block.inputs[k].id.0)
    &&& outputs.contains_key(input_output[block.inputs[k].id.0].0)
    &&& outputs[input_output[block.inputs[k].id.0].0] is Iteration
    &&& outputs[input_output[block.inputs[k].id.0].0].elements().len() == length
}

/// What a machine holds is bounded.
pub proof fn lemma_outputs_bounded(outputs: Map<usize, OutputResult>)
    ensures
        bounded(outputs_view(outputs)),
{
    assert forall|id: usize| outputs_view(outputs).contains_key(id) implies (
    #[trigger] outputs_view(outputs)[id]).elements().len() <= usize::MAX by {
        match outputs[id] {
            OutputResult::SingleValue(v) => {},
            OutputResult::Iteration(vs) => {
                assert(vs@.len() == vs.len());
            },
        }
    }
}

/// Once resolving has met an error, that error is its result.
pub proof fn lemma_resolve_error_sticks(
    block: BlockView,
    input_output: Map<usize, Id>,
    owners: Map<usize, Id>,
    outputs: Map<usize, OutputView>,
    count: nat,
    later: nat,
)
    requires
        resolve_first(block, input_output, owners, outputs, count) is Err,
        count <= later,
    ensures
        resolve_first(block, input_output, owners, outputs, later) == resolve_first(
            block,
            input_output,
            owners,
            outputs,
            count,
        ),
    decreases later,
{
    if count < later {
        lemma_resolve_error_sticks(block, input_output, owners, outputs, count, (later - 1) as nat);
    }
}

/// Once flattening has met an error, that error is its result.
pub proof fn lemma_flatten_error_sticks(
    block: Id,
    inputs: Seq<OutputView>,
    count: nat,
    later: nat,
)
    requires
        flatten_first(block, inputs, count) is Err,
        count <= later,
    ensures
        flatten_first(block, inputs, later) == flatten_first(block, inputs, count),
    decreases later,
{
    if count < later {
        lemma_flatten_error_sticks(block, inputs, count, (later - 1) as nat);
    }
}

/// The sequences among resolved inputs all have the length that the
/// resolution names; where it names none, there is no sequence among them.
pub proof fn lemma_resolved_uniform(
    block: BlockView,
    input_output: Map<usize, Id>,
    owners: Map<usize, Id>,
    outputs: Map<usize, OutputView>,
    count: nat,
)
    requires
        bounded(outputs),
        resolve_first(block, input_output, owners, outputs, count) is Ok,
    ensures
        ({
            let r = resolve_first(block, input_output, owners, outputs, count)->Ok_0;
            &&& r.inputs.len() == count
            &&& r.iteration is None ==> all_single(r.inputs)
            &&& r.iteration is Some ==> uniform(r.inputs, length_of(r.iteration) as int)
        }),
    decreases count,
{
    if count > 0 {
        lemma_resolved_uniform(block, input_output, owners, outputs, (count - 1) as nat);
        let before = resolve_first(block, input_output, owners, outputs, (count - 1) as nat)->Ok_0;
        let r = resolve_first(block, input_output, owners, outputs, count)->Ok_0;
        let port = block.inputs[count - 1];
        assert forall|k: int| 0 <= k < count - 1 implies #[trigger] r.inputs[k] == before.inputs[k] by {}
        if input_output.contains_key(port.id.0) {
            let source = input_output[port.id.0];
            assert(outputs[source.0].elements().len() <= usize::MAX);
        }
    }
}

/// No flattened input is a sequence.
pub proof fn lemma_flattened_single(block: Id, inputs: Seq<OutputView>, count: nat)
    requires
        flatten_first(block, inputs, count) is Ok,
    ensures
        flatten_first(block, inputs, count)->Ok_0.len() == count,
        all_single(flatten_first(block, inputs, count)->Ok_0),
    decreases count,
{
    if count > 0 {
        lemma_flattened_single(block, inputs, (count - 1) as nat);
    }
}

/// The inputs of a prepared block fit its number of runs.
pub proof fn lemma_prepared_uniform(
    block: BlockView,
    input_output: Map<usize, Id>,
    owners: Map<usize, Id>,
    outputs: Map<usize, OutputView>,
)
    requires
        bounded(outputs),
        prepare(block, input_output, owners, outputs) is Ok,
    ensures
        ({
            let p = prepare(block, input_output, owners, outputs)->Ok_0;
            &&& p.inputs.len() == block.inputs.len()
            &&& uniform(p.inputs, p.iterations as int)
        }),
{
    lemma_resolved_uniform(block, input_output, owners, outputs, block.inputs.len());
    let resolved = resolve_first(block, input_output, owners, outputs, block.inputs.len())->Ok_0;
    if block.flatten_inputs {
        lemma_flattened_single(block.id, resolved.inputs, resolved.inputs.len());
    }
}

/// Where the inputs of a block resolve, all the sequences that feed them
/// have one length: the length that the resolution names.
pub proof fn lemma_resolved_lengths_agree(
    block: BlockView,
    input_output: Map<usize, Id>,
    owners: Map<usize, Id>,
    outputs: Map<usize, OutputView>,
    count: nat,
    k: int,
    length: int,
)
    requires
        bounded(outputs),
        count <= block.inputs.len(),
        resolve_first(block, input_output, owners, outputs, count) is Ok,
        receives_sequence(block, input_output, outputs, k, length),
        k < count,
    ensures
        resolve_first(block, input_output, owners, outputs, count)->Ok_0.iteration is Some,
        length_of(resolve_first(block, input_output, owners, outputs, count)->Ok_0.iteration) == length,
    decreases count,
{
    lemma_resolved_uniform(block, input_output, owners, outputs, count);
    let r = resolve_first(block, input_output, owners, outputs, count)->Ok_0;
    if k < count - 1 {
        lemma_resolved_lengths_agree(
            block,
            input_output,
            owners,
            outputs,
            (count - 1) as nat,
            k,
            length,
        );
        let before = resolve_first(block, input_output, owners, outputs, (count - 1) as nat)->Ok_0;
        let port = block.inputs[count - 1];
        if input_output.contains_key(port.id.0) {
            let source = input_output[port.id.0];
            assert(outputs[source.0].elements().len() <= usize::MAX);
        }
    } else {
        let source = input_output[block.inputs[k].id.0];
        assert(outputs[source.0].elements().len() <= usize::MAX);
    }
}

/// Two inputs of a block that are fed sequences of different lengths keep
/// the block from running: its inputs do not resolve.
pub proof fn lemma_different_lengths_fail(
    block: BlockView,
    input_output: Map<usize, Id>,
    owners: Map<usize, Id>,
    outputs: Map<usize, OutputView>,
    first: int,
    first_len: int,
    second: int,
    second_len: int,
)
    requires
        bounded(outputs),
        receives_sequence(block, input_output, outputs, first, first_len),
        receives_sequence(block, input_output, outputs, second, second_len),
        first_len != second_len,
    ensures
        prepare(block, input_output, owners, outputs) is Err,
{
    if resolve_first(block, input_output, owners, outputs, block.inputs.len()) is Ok {
        lemma_resolved_lengths_agree(
            block,
            input_output,
            owners,
            outputs,
            block.inputs.len(),
            first,
            first_len,
        );
        lemma_resolved_lengths_agree(
            block,
            input_output,
            owners,
            outputs,
            block.inputs.len(),
            second,
            second_len,
        );
    }
}

/// `told` tells truly of the sequence that arrives at the input at `i` of
/// `block`: it names that input, the block that feeds it as the connections
/// have it, and the length of the sequence.
pub open spec fn tells_of(
    block: BlockView,
    input_output: Map<usize, Id>,
    owners: Map<usize, Id>,
    outputs: Map<usize, OutputView>,
    told: IteratedInput,
    i: int,
) -> bool {
    &&& 0 <= i < block.inputs.len()
    &&& block.inputs[i].id == told.input
    &&& told.source == owner_of(owners, told.input)
    &&& receives_sequence(block, input_output, outputs, i, told.length as int)
}

/// What a resolution keeps of the last input that receives a sequence tells
/// truly of one of the inputs that it has resolved.
pub proof fn lemma_last_sequence(
    block: BlockView,
    input_output: Map<usize, Id>,
    owners: Map<usize, Id>,
    outputs: Map<usize, OutputView>,
    count: nat,
)
    requires
        bounded(outputs),
        count <= block.inputs.len(),
        resolve_first(block, input_output, owners, outputs, count) is Ok,
        resolve_first(block, input_output, owners, outputs, count)->Ok_0.iteration is Some,
    ensures
        exists|i: int|
            0 <= i < count && #[trigger] tells_of(
                block,
                input_output,
                owners,
                outputs,
                resolve_first(block, input_output, owners, outputs, count)->Ok_0.iteration.unwrap(),
                i,
            ),
    decreases count,
{
    let r = resolve_first(block, input_output, owners, outputs, count)->Ok_0;
    if count > 0 {
        let before = resolve_first(block, input_output, owners, outputs, (count - 1) as nat)->Ok_0;
        let port = block.inputs[count - 1];
        if input_output.contains_key(port.id.0) && outputs.contains_key(
            input_output[port.id.0].0,
        ) && outputs[input_output[port.id.0].0] is Iteration {
            let source = input_output[port.id.0];
            assert(outputs[source.0].elements().len() <= usize::MAX);
            assert(tells_of(block, input_output, owners, outputs, r.iteration.unwrap(), count - 1));
        } else {
            lemma_last_sequence(block, input_output, owners, outputs, (count - 1) as nat);
            let i = choose|i: int|
                0 <= i < count - 1 && #[trigger] tells_of(
                    block,
                    input_output,
                    owners,
                    outputs,
                    before.iteration.unwrap(),
                    i,
                );
            assert(tells_of(block, input_output, owners, outputs, r.iteration.unwrap(), i));
        }
    }
}

/// The error that tells of sequences of different lengths tells truly of
/// two inputs of the block, the first before the second: it names both
/// inputs, the blocks that feed them, and the lengths of the two sequences,
/// which differ.
pub proof fn lemma_length_mismatch_names_inputs(
    block: BlockView,
    input_output: Map<usize, Id>,
    owners: Map<usize, Id>,
    outputs: Map<usize, OutputView>,
    count: nat,
)
    requires
        bounded(outputs),
        count <= block.inputs.len(),
        resolve_first(block, input_output, owners, outputs, count) matches Err(
            EvalError::LengthMismatch { .. },
        ),
    ensures
        resolve_first(block, input_output, owners, outputs, count) matches Err(
            EvalError::LengthMismatch { block: at, first, second },
        ) && at == block.id && first.length != second.length && exists|i: int, j: int|
            0 <= i < j < count && #[trigger] tells_of(
                block,
                input_output,
                owners,
                outputs,
                first,
                i,
            ) && #[trigger] tells_of(block, input_output, owners, outputs, second, j),
    decreases count,
{
    let before = resolve_first(block, input_output, owners, outputs, (count - 1) as nat);
    let failed = resolve_first(block, input_output, owners, outputs, count)->Err_0;
    if before is Err {
        lemma_length_mismatch_names_inputs(block, input_output, owners, outputs, (count - 1) as nat);
        let (i, j) = choose|i: int, j: int|
            0 <= i < j < count - 1 && #[trigger] tells_of(
                block,
                input_output,
                owners,
                outputs,
                failed->first,
                i,
            ) && #[trigger] tells_of(block, input_output, owners, outputs, failed->second, j);
        assert(0 <= i < j < count && tells_of(
            block,
            input_output,
            owners,
            outputs,
            failed->first,
            i,
        ) && tells_of(block, input_output, owners, outputs, failed->second, j));
    } else {
        let so_far = before->Ok_0;
        let port = block.inputs[count - 1];
        let source = input_output[port.id.0];
        assert(outputs[source.0].elements().len() <= usize::MAX);
        lemma_last_sequence(block, input_output, owners, outputs, (count - 1) as nat);
        let i = choose|i: int|
            0 <= i < count - 1 && #[trigger] tells_of(
                block,
                input_output,
                owners,
                outputs,
                so_far.iteration.unwrap(),
                i,
            );
        assert(tells_of(block, input_output, owners, outputs, failed->first, i) && tells_of(
            block,
            input_output,
            owners,
            outputs,
            failed->second,
            count - 1,
        ));
    }
}

/// Where the connections tell which block feeds an input, the error that
/// tells of sequences of different lengths names the two blocks that the
/// sequences come from.
pub proof fn lemma_length_mismatch_names_blocks(
    block: BlockView,
    input_output: Map<usize, Id>,
    owners: Map<usize, Id>,
    outputs: Map<usize, OutputView>,
)
    requires
        bounded(outputs),
        owners.dom() == input_output.dom(),
        prepare(block, input_output, owners, outputs) matches Err(EvalError::LengthMismatch { .. }),
    ensures
        prepare(block, input_output, owners, outputs) matches Err(
            EvalError::LengthMismatch { block: at, first, second },
        ) && first.source == Some(owners[first.input.0]) && second.source == Some(
            owners[second.input.0],
        ),
{
    let resolved = resolve_first(block, input_output, owners, outputs, block.inputs.len());
    if resolved is Ok {
        if block.flatten_inputs {
            lemma_flatten_never_mismatches(
                block.id,
                resolved->Ok_0.inputs,
                resolved->Ok_0.inputs.len(),
            );
        }
    } else {
        lemma_length_mismatch_names_inputs(
            block,
            input_output,
            owners,
            outputs,
            block.inputs.len(),
        );
        let failed = resolved->Err_0;
        let (i, j) = choose|i: int, j: int|
            0 <= i < j < block.inputs.len() && #[trigger] tells_of(
                block,
                input_output,
                owners,
                outputs,
                failed->first,
                i,
            ) && #[trigger] tells_of(block, input_output, owners, outputs, failed->second, j);
        assert(input_output.dom().contains(failed->first.input.0));
        assert(input_output.dom().contains(failed->second.input.0));
    }
}

/// Flattening does not fail for sequences of different lengths.
pub proof fn lemma_flatten_never_mismatches(block: Id, inputs: Seq<OutputView>, count: nat)
    ensures
        !(flatten_first(block, inputs, count) matches Err(EvalError::LengthMismatch { .. })),
    decreases count,
{
    if count > 0 {
        lemma_flatten_never_mismatches(block, inputs, (count - 1) as nat);
    }
}

/// A block that does not flatten its inputs and is fed a sequence of
/// `length` values runs `length` times.
pub proof fn lemma_runs_once_for_each_value(
    block: BlockView,
    input_output: Map<usize, Id>,
    owners: Map<usize, Id>,
    outputs: Map<usize, OutputView>,
    k: int,
    length: int,
)
    requires
        bounded(outputs),
        !block.flatten_inputs,
        prepare(block, input_output, owners, outputs) is Ok,
        receives_sequence(block, input_output, outputs, k, length),
    ensures
        prepare(block, input_output, owners, outputs)->Ok_0.iterations == length,
{
    lemma_resolved_lengths_agree(block, input_output, owners, outputs, block.inputs.len(), k, length);
}

/// A block that flattens its inputs runs once, and no input of it is a
/// sequence.
pub proof fn lemma_flattening_block_runs_once(
    block: BlockView,
    input_output: Map<usize, Id>,
    owners: Map<usize, Id>,
    outputs: Map<usize, OutputView>,
)
    requires
        block.flatten_inputs,
        prepare(block, input_output, owners, outputs) is Ok,
    ensures
        prepare(block, input_output, owners, outputs)->Ok_0.iterations == 1,
        all_single(prepare(block, input_output, owners, outputs)->Ok_0.inputs),
{
    let resolved = resolve_first(block, input_output, owners, outputs, block.inputs.len())->Ok_0;
    lemma_flattened_single(block.id, resolved.inputs, resolved.inputs.len());
}

/// A sequence of points becomes the list of those points, in their order.
pub proof fn lemma_flatten_points(block: Id, points: Seq<(u32, u32)>)
    requires
        points.len() > 0,
    ensures
        flatten_one(
            block,
            OutputView::Iteration(Seq::new(points.len(), |k: int| ValueView::Point(points[k]))),
        ) == Ok::<OutputView, EvalError>(OutputView::SingleValue(ValueView::ListPoints(points))),
{
    let values = Seq::new(points.len(), |k: int| ValueView::Point(points[k]));
    assert(values[0] is Point);
    assert(Seq::new(values.len(), |k: int| values[k].point_or_origin()) =~= points);
}

/// A sequence of numbers becomes the list of those numbers, in their order.
pub proof fn lemma_flatten_numbers(block: Id, numbers: Seq<u64>)
    requires
        numbers.len() > 0,
    ensures
        flatten_one(
            block,
            OutputView::Iteration(Seq::new(numbers.len(), |k: int| ValueView::Number(numbers[k]))),
        ) == Ok::<OutputView, EvalError>(OutputView::SingleValue(ValueView::ListNumbers(numbers))),
{
    let values = Seq::new(numbers.len(), |k: int| ValueView::Number(numbers[k]));
    assert(values[0] is Number);
    assert(Seq::new(values.len(), |k: int| values[k].number_or_zero()) =~= numbers);
}

/// An output that is written twice with single values holds both, the
/// first one first.
pub proof fn lemma_two_single_values_merge(
    outputs: Map<usize, OutputView>,
    id: Id,
    first: ValueView,
    second: ValueView,
)
    requires
        !outputs.contains_key(id.0),
    ensures
        record_one(
            record_one(outputs, id, OutputView::SingleValue(first)),
            id,
            OutputView::SingleValue(second),
        )[id.0] == OutputView::Iteration(seq![first, second]),
{
    assert(seq![first] + seq![second] =~= seq![first, second]);
}

/// What an output holds after several results arrived does not depend on
/// how they are grouped: the values stand in the order of their arrival.
pub proof fn lemma_merge_associative(a: OutputView, b: OutputView, c: OutputView)
    ensures
        merged(merged(a, b), c) == merged(a, merged(b, c)),
        merged(a, b).elements() == a.elements() + b.elements(),
{
    assert((a.elements() + b.elements()) + c.elements() =~= a.elements() + (b.elements()
        + c.elements()));
}

/// Keeping a result touches no output but the one it is kept for.
pub proof fn lemma_record_keeps_others(
    outputs: Map<usize, OutputView>,
    id: Id,
    result: OutputView,
    other: usize,
)
    requires
        other != id.0,
    ensures
        record_one(outputs, id, result).contains_key(other) == outputs.contains_key(other),
        outputs.contains_key(other) ==> record_one(outputs, id, result)[other] == outputs[other],
{
}

/// What a pass asks for while it stands as `pass` does: the run of the
/// block that it is calling, or nothing more.
pub open spec fn request_of(pass: PassView) -> ActionView {
    match pass.phase {
        Phase::Calling => ActionView::Call {
            block_index: pass.block_index,
            inputs: call_inputs(pass.inputs, pass.iteration as int),
        },
        Phase::Failed(e) => ActionView::Failed(e),
        _ => ActionView::Finished,
    }
}

/// What the search for the next block asks for tells where it has come to.
pub proof fn lemma_seek_tells_phase(ctx: ContextView, outputs: Map<usize, OutputView>, position: nat)
    ensures
        !(seek(ctx, outputs, position).0.phase is Idle),
        seek(ctx, outputs, position).1 == request_of(seek(ctx, outputs, position).0),
    decreases ctx.graph_order.len() - position,
{
    if position < ctx.graph_order.len() {
        lemma_seek_tells_phase(ctx, outputs, position + 1);
    }
}

/// What a pass asks for after a step tells where the pass stands: it asks
/// for a run exactly while it is calling a block, and it is at its end
/// otherwise.
pub proof fn lemma_step_tells_phase(ctx: ContextView, pass: PassView, event: EventView)
    ensures
        !(step(ctx, pass, event).0.phase is Idle),
        step(ctx, pass, event).1 == request_of(step(ctx, pass, event).0),
{
    let noted = after_event(ctx, pass, event);
    lemma_seek_tells_phase(ctx, noted.outputs, 0);
    lemma_seek_tells_phase(ctx, noted.outputs, noted.position + 1);
}

/// The search for the next block to call reads nothing of a context but
/// its blocks, their order, and the connections of their inputs: which
/// output feeds each input, and which block owns that output.
pub proof fn lemma_seek_agrees(
    first_ctx: ContextView,
    second_ctx: ContextView,
    outputs: Map<usize, OutputView>,
    position: nat,
)
    requires
        first_ctx.blocks == second_ctx.blocks,
        first_ctx.input_output == second_ctx.input_output,
        first_ctx.inputs == second_ctx.inputs,
        first_ctx.graph_order == second_ctx.graph_order,
        first_ctx.block_ids == second_ctx.block_ids,
        first_ctx.graph.len() == second_ctx.graph.len(),
        forall|n: int|
            0 <= n < first_ctx.graph.len() ==> (#[trigger] first_ctx.graph[n]).value
                == second_ctx.graph[n].value,
        first_ctx.runnable(),
    ensures
        seek(first_ctx, outputs, position) == seek(second_ctx, outputs, position),
    decreases first_ctx.graph_order.len() - position,
{
    if position < first_ctx.graph_order.len() {
        let node = first_ctx.graph_order[position as int];
        assert(first_ctx.graph[node as int].value == second_ctx.graph[node as int].value);
        lemma_seek_agrees(first_ctx, second_ctx, outputs, position + 1);
    }
}

/// Two passes over the same blocks that start alike and are told the same
/// ask for the same, in the same order, and end alike: a pass depends on
/// nothing but the blocks, their connections, and what the blocks return.
pub proof fn lemma_passes_agree(
    first_ctx: ContextView,
    second_ctx: ContextView,
    first: PassView,
    second: PassView,
    first_events: Seq<EventView>,
    second_events: Seq<EventView>,
)
    requires
        first_ctx.blocks == second_ctx.blocks,
        first_ctx.input_output == second_ctx.input_output,
        first_ctx.inputs == second_ctx.inputs,
        first_ctx.graph_order == second_ctx.graph_order,
        first_ctx.block_ids == second_ctx.block_ids,
        first_ctx.graph.len() == second_ctx.graph.len(),
        forall|n: int|
            0 <= n < first_ctx.graph.len() ==> (#[trigger] first_ctx.graph[n]).value
                == second_ctx.graph[n].value,
        first_ctx.runnable(),
        first == second,
        first_events == second_events,
    ensures
        replay(first_ctx, first, first_events) == replay(second_ctx, second, second_events),
    decreases first_events.len(),
{
    if first_events.len() > 0 {
        lemma_passes_agree(
            first_ctx,
            second_ctx,
            first,
            second,
            first_events.drop_last(),
            second_events.drop_last(),
        );
        let (before, actions) = replay(first_ctx, first, first_events.drop_last());
        let noted = after_event(first_ctx, before, first_events.last());
        assert(noted == after_event(second_ctx, before, first_events.last()));
        lemma_seek_agrees(first_ctx, second_ctx, noted.outputs, 0);
        lemma_seek_agrees(first_ctx, second_ctx, noted.outputs, noted.position + 1);
    }
}

/// While the block that is being called has a run left after the one that
/// it returns from, the pass asks for that run next: the same block, with
/// the inputs of the next run.
pub proof fn lemma_next_run(ctx: ContextView, pass: PassView, returned: Option<Seq<OutputView>>)
    requires
        pass.phase is Calling,
        pass.iteration + 1 < pass.iterations,
    ensures
        ({
            let (after, action) = step(ctx, pass, EventView::Returned(returned));
            &&& action == ActionView::Call {
                block_index: pass.block_index,
                inputs: call_inputs(pass.inputs, pass.iteration + 1),
            }
            &&& after == PassView {
                outputs: after.outputs,
                iteration: (pass.iteration + 1) as usize,
                ..pass
            }
        }),
{
}

/// When the block that is being called returns from its last run, the pass
/// goes on to the blocks behind it.
pub proof fn lemma_last_run(ctx: ContextView, pass: PassView, returned: Option<Seq<OutputView>>)
    requires
        pass.phase is Calling,
        pass.iteration + 1 == pass.iterations,
    ensures
        step(ctx, pass, EventView::Returned(returned)) == seek(
            ctx,
            after_event(ctx, pass, EventView::Returned(returned)).outputs,
            pass.position + 1,
        ),
{
}

/// A block whose inputs were made ready for `n` runs is called `n` times,
/// run by run: after its first call, each of the next `n - 1` returns is
/// answered by the call of the next run, and the pass is then in the last
/// run of the block.
pub proof fn lemma_runs_follow_each_other(
    ctx: ContextView,
    pass: PassView,
    handed_back: Seq<Option<Seq<OutputView>>>,
)
    requires
        pass.phase is Calling,
        pass.iteration + handed_back.len() < pass.iterations,
    ensures
        ({
            let events = Seq::new(handed_back.len(), |k: int| EventView::Returned(handed_back[k]));
            let (after, actions) = replay(ctx, pass, events);
            &&& actions == Seq::new(
                handed_back.len(),
                |k: int|
                    ActionView::Call {
                        block_index: pass.block_index,
                        inputs: call_inputs(pass.inputs, pass.iteration + 1 + k),
                    },
            )
            &&& after == PassView {
                outputs: after.outputs,
                iteration: (pass.iteration + handed_back.len()) as usize,
                ..pass
            }
        }),
    decreases handed_back.len(),
{
    let events = Seq::new(handed_back.len(), |k: int| EventView::Returned(handed_back[k]));
    let calls = Seq::new(
        handed_back.len(),
        |k: int|
            ActionView::Call {
                block_index: pass.block_index,
                inputs: call_inputs(pass.inputs, pass.iteration + 1 + k),
            },
    );
    if handed_back.len() > 0 {
        let fewer = handed_back.drop_last();
        lemma_runs_follow_each_other(ctx, pass, fewer);
        let fewer_events = Seq::new(fewer.len(), |k: int| EventView::Returned(fewer[k]));
        assert(events.drop_last() =~= fewer_events);
        let (before, actions) = replay(ctx, pass, fewer_events);
        lemma_next_run(ctx, before, handed_back.last());
        assert(replay(ctx, pass, events).1 =~= calls);
    } else {
        assert(replay(ctx, pass, events).1 =~= calls);
    }
}

/// Finds what each input of `block` receives.
pub fn resolve_inputs(
    block: &DraggableBlock,
    input_output: &HashMap<usize, Id>,
    owners: &HashMap<usize, Id>,
    outputs: &HashMap<usize, OutputResult>,
) -> (resolved: Result<(Vec<InputResult>, Option<IteratedInput>), EvalError>)
    ensures
        match resolve_first(block@, input_output@, owners@, outputs_view(outputs@), block@.inputs.len()) {
            Ok(r) => resolved matches Ok((inputs, iteration)) && inputs_view(inputs@) == r.inputs
                && iteration == r.iteration,
            Err(e) => resolved == Err::<(Vec<InputResult>, Option<IteratedInput>), EvalError>(e),
        },
{
    let ghost held = outputs_view(outputs@);
    let mut has_iteration: Option<IteratedInput> = None;
    let mut this_input: Vec<InputResult> = Vec::new();
    let mut k: usize = 0;
    assert(inputs_view(this_input@) =~= Seq::empty());
    while k < block.inputs.len()
        invariant
            k <= block.inputs@.len(),
            block@.inputs.len() == block.inputs@.len(),
            held == outputs_view(outputs@),
            resolve_first(block@, input_output@, owners@, held, k as nat) == Ok::<Resolution, EvalError>(
                Resolution { inputs: inputs_view(this_input@), iteration: has_iteration },
            ),
        decreases block.inputs@.len() - k,
    {
        let input = &block.inputs[k];
        let ghost so_far = Resolution { inputs: inputs_view(this_input@), iteration: has_iteration };
        let ghost before = this_input@;
        assert(block@.inputs[k as int] == input@);
        match input_output.get(&input.id.0) {
            Some(output_id) => {
                match outputs.get(&output_id.0) {
                    Some(previous_value) => {
                        match previous_value {
                            OutputResult::SingleValue(v) => {
                                this_input.push(InputResult::SingleValue(v.clone()));
                            },
                            OutputResult::Iteration(v) => {
                                let arrived = IteratedInput {
                                    input: input.id,
                                    source: match owners.get(&input.id.0) {
                                        Some(owner) => Some(*owner),
                                        None => None,
                                    },
                                    length: v.len(),
                                };
                                match has_iteration {
                                    Some(past) => {
                                        if v.len() != past.length {
                                            proof {
                                                lemma_resolve_error_sticks(
                                                    block@,
                                                    input_output@,
                                                    owners@,
                                                    held,
                                                    (k + 1) as nat,
                                                    block@.inputs.len(),
                                                );
                                            }
                                            return Err(
                                                EvalError::LengthMismatch {
                                                    block: block.id,
                                                    first: past,
                                                    second: arrived,
                                                },
                                            );
                                        }
                                    },
                                    None => {},
                                }
                                has_iteration = Some(arrived);
                                this_input.push(InputResult::Iteration(copy_values(v)));
                            },
                        }
                    },
                    None => {
                        proof {
                            lemma_resolve_error_sticks(
                                block@,
                                input_output@,
                                owners@,
                                held,
                                (k + 1) as nat,
                                block@.inputs.len(),
                            );
                        }
                        return Err(
                            EvalError::MissingOutput { block: block.id, output: *output_id },
                        );
                    },
                }
            },
            None => {
                this_input.push(InputResult::SingleValue(input.value.clone()));
            },
        }
        proof {
            let next = resolve_port(block@.id, input@, input_output@, owners@, held, so_far);
            assert(next is Ok);
            assert(inputs_view(this_input@) =~= next->Ok_0.inputs);
        }
        k += 1;
    }
    Ok((this_input, has_iteration))
}

/// The numbers of a sequence of values, zero for each value that is no
/// number.
pub fn collect_numbers(values: &Vec<InputValue>) -> (numbers: Vec<u64>)
    ensures
        numbers@ == Seq::new(
            values@.len(),
            |k: int| values_view(values@)[k].number_or_zero(),
        ),
{
    let mut out: Vec<u64> = Vec::new();
    let mut k: usize = 0;
    while k < values.len()
        invariant
            k <= values@.len(),
            out@.len() == k,
            forall|j: int| 0 <= j < k ==> out@[j] == values@[j]@.number_or_zero(),
        decreases values@.len() - k,
    {
        out.push(values[k].as_f64());
        k += 1;
    }
    assert(out@ =~= Seq::new(values@.len(), |k: int| values_view(values@)[k].number_or_zero()));
    out
}

/// The points of a sequence of values, the origin for each value that is no
/// point.
pub fn collect_points(values: &Vec<InputValue>) -> (points: Vec<(u32, u32)>)
    ensures
        points@ == Seq::new(
            values@.len(),
            |k: int| values_view(values@)[k].point_or_origin(),
        ),
{
    let mut out: Vec<(u32, u32)> = Vec::new();
    let mut k: usize = 0;
    while k < values.len()
        invariant
            k <= values@.len(),
            out@.len() == k,
            forall|j: int| 0 <= j < k ==> out@[j] == values@[j]@.point_or_origin(),
        decreases values@.len() - k,
    {
        out.push(values[k].as_point());
        k += 1;
    }
    assert(out@ =~= Seq::new(values@.len(), |k: int| values_view(values@)[k].point_or_origin()));
    out
}

/// Turns every sequence among the inputs of the block `block` into one list.
pub fn flatten_inputs(block: Id, inputs: Vec<InputResult>) -> (flat: Result<
    Vec<InputResult>,
    EvalError,
>)
    ensures
        match flatten_first(block, inputs_view(inputs@), inputs@.len()) {
            Ok(f) => flat matches Ok(out) && inputs_view(out@) == f,
            Err(e) => flat == Err::<Vec<InputResult>, EvalError>(e),
        },
{
    let ghost given = inputs_view(inputs@);
    let mut this_input_clone: Vec<InputResult> = Vec::new();
    let mut k: usize = 0;
    assert(inputs_view(this_input_clone@) =~= Seq::empty());
    while k < inputs.len()
        invariant
            k <= inputs@.len(),
            given == inputs_view(inputs@),
            flatten_first(block, given, k as nat) == Ok::<Seq<OutputView>, EvalError>(
                inputs_view(this_input_clone@),
            ),
        decreases inputs@.len() - k,
    {
        let ghost before = inputs_view(this_input_clone@);
        assert(given[k as int] == inputs@[k as int]@);
        match &inputs[k] {
            InputResult::Iteration(x) => {
                if x.len() == 0 {
                    this_input_clone.push(
                        InputResult::SingleValue(InputValue::ListNumbers(Vec::new())),
                    );
                } else {
                    assert(values_view(x@)[0] == x@[0]@);
                    match &x[0] {
                        InputValue::Number(_) => {
                            this_input_clone.push(
                                InputResult::SingleValue(InputValue::ListNumbers(collect_numbers(x))),
                            );
                        },
                        InputValue::Point(_) => {
                            this_input_clone.push(
                                InputResult::SingleValue(InputValue::ListPoints(collect_points(x))),
                            );
                        },
                        other => {
                            proof {
                                lemma_flatten_error_sticks(
                                    block,
                                    given,
                                    (k + 1) as nat,
                                    inputs@.len(),
                                );
                            }
                            return Err(
                                EvalError::UnsupportedFlatten { block, kind: other.kind() },
                            );
                        },
                    }
                }
            },
            InputResult::SingleValue(v) => {
                this_input_clone.push(InputResult::SingleValue(v.clone()));
            },
        }
        proof {
            let next = flatten_one(block, given[k as int]);
            assert(next is Ok);
            assert(inputs_view(this_input_clone@) =~= before.push(next->Ok_0));
        }
        k += 1;
    }
    Ok(this_input_clone)
}

/// What run number `i` of a block is handed.
pub fn select_inputs(inputs: &Vec<InputResult>, i: usize) -> (selected: Vec<InputValue>)
    requires
        reaches_all(inputs_view(inputs@), i as int),
    ensures
        values_view(selected@) == call_inputs(inputs_view(inputs@), i as int),
{
    let mut input_vec: Vec<InputValue> = Vec::new();
    let mut k: usize = 0;
    while k < inputs.len()
        invariant
            k <= inputs@.len(),
            input_vec@.len() == k,
            reaches_all(inputs_view(inputs@), i as int),
            forall|j: int| 0 <= j < k ==> (#[trigger] input_vec@[j])@ == call_input(inputs@[j]@, i as int),
        decreases inputs@.len() - k,
    {
        match &inputs[k] {
            InputResult::SingleValue(v) => {
                input_vec.push(v.clone());
            },
            InputResult::Iteration(values) => {
                assert(inputs_view(inputs@)[k as int] == OutputView::Iteration(values_view(values@)));
                assert(values_view(values@)[i as int] == values@[i as int]@);
                input_vec.push(values[i].clone());
            },
        }
        k += 1;
    }
    assert(values_view(input_vec@) =~= call_inputs(inputs_view(inputs@), i as int));
    input_vec
}

/// Keeps `value` for the output `id`, behind what the output holds already.
pub fn merge_output(outputs: &mut HashMap<usize, OutputResult>, id: Id, value: OutputResult)
    ensures
        outputs_view(final(outputs)@) == record_one(outputs_view(old(outputs)@), id, value@),
{
    let ghost held = outputs_view(outputs@);
    match outputs.remove(&id.0) {
        Some(previous_val) => {
            let mut iteration_values: Vec<InputValue> = match previous_val {
                OutputResult::SingleValue(v) => {
                    let mut single: Vec<InputValue> = Vec::new();
                    single.push(v);
                    assert(values_view(single@) =~= seq![v@]);
                    single
                },
                OutputResult::Iteration(iteration_vals) => iteration_vals,
            };
            assert(values_view(iteration_values@) == previous_val@.elements());
            let ghost first = iteration_values@;
            match value {
                OutputResult::SingleValue(v) => {
                    iteration_values.push(v);
                    assert(values_view(iteration_values@) =~= values_view(first) + seq![v@]);
                },
                OutputResult::Iteration(i_vals) => {
                    let mut i_vals = i_vals;
                    let ghost second = i_vals@;
                    iteration_values.append(&mut i_vals);
                    assert(values_view(iteration_values@) =~= values_view(first) + values_view(
                        second,
                    ));
                },
            }
            outputs.insert(id.0, OutputResult::Iteration(iteration_values));
            assert(outputs_view(outputs@) =~= record_one(held, id, value@));
        },
        None => {
            outputs.insert(id.0, value);
            assert(outputs_view(outputs@) =~= record_one(held, id, value@));
        },
    }
}

/// Keeps the results of one run of a block, each for the output port at its
/// index.
pub fn record_results(
    outputs: &mut HashMap<usize, OutputResult>,
    ports: &Vec<crate::block::BlockConnectionNode>,
    results: Vec<OutputResult>,
)
    requires
        results@.len() <= ports@.len(),
    ensures
        outputs_view(final(outputs)@) == record_first(
            outputs_view(old(outputs)@),
            crate::block::ports_view(ports@),
            results_view(results@),
            results@.len(),
        ),
{
    let ghost start = outputs_view(outputs@);
    let ghost port_views = crate::block::ports_view(ports@);
    let ghost result_views = results_view(results@);
    let count = results.len();
    // Turned round, the results leave the list first to last.
    let mut turned = turned_round(results);
    assert forall|j: int| 0 <= j < turned@.len() implies (#[trigger] turned@[j])@
        == result_views[count - 1 - j] by {
        assert(turned@[j] == results@[count - 1 - j]);
    }
    let mut result_index: usize = 0;
    while result_index < count
        invariant
            result_index <= count,
            count <= ports@.len(),
            turned@.len() == count - result_index,
            result_views.len() == count,
            port_views == crate::block::ports_view(ports@),
            forall|j: int|
                0 <= j < turned@.len() ==> (#[trigger] turned@[j])@ == result_views[count - 1 - j],
            outputs_view(outputs@) == record_first(start, port_views, result_views, result_index as nat),
        decreases count - result_index,
    {
        let result_value = turned.pop().unwrap();
        let result_id = ports[result_index].id;
        assert(port_views[result_index as int].id == result_id);
        merge_output(outputs, result_id, result_value);
        result_index += 1;
    }
}

/// Makes the inputs of `block` ready for its runs and counts the runs.
pub fn prepare_inputs(
    block: &DraggableBlock,
    input_output: &HashMap<usize, Id>,
    owners: &HashMap<usize, Id>,
    outputs: &HashMap<usize, OutputResult>,
) -> (prepared: Result<(Vec<InputResult>, usize), EvalError>)
    ensures
        match prepare(block@, input_output@, owners@, outputs_view(outputs@)) {
            Ok(p) => prepared matches Ok((inputs, iterations)) && inputs_view(inputs@) == p.inputs
                && iterations == p.iterations,
            Err(e) => prepared == Err::<(Vec<InputResult>, usize), EvalError>(e),
        },
{
    match resolve_inputs(block, input_output, owners, outputs) {
        Err(e) => Err(e),
        Ok((this_input, has_iteration)) => {
            if block.flatten_inputs {
                match flatten_inputs(block.id, this_input) {
                    Err(e) => Err(e),
                    Ok(flat) => Ok((flat, 1)),
                }
            } else {
                let num_iterations = match has_iteration {
                    Some(last) => last.length,
                    None => 1,
                };
                Ok((this_input, num_iterations))
            }
        },
    }
}

impl Evaluation {
    /// A pass that has not begun.
    pub fn new() -> (pass: Evaluation)
        ensures
            pass@ == resting(Map::<usize, OutputView>::empty(), Phase::Idle, 0),
    {
        let pass = Evaluation {
            outputs: HashMap::new(),
            phase: Phase::Idle,
            position: 0,
            block_index: 0,
            inputs: Vec::new(),
            iterations: 0,
            iteration: 0,
        };
        assert(pass@.outputs =~= Map::<usize, OutputView>::empty());
        assert(pass@.inputs =~= Seq::<OutputView>::empty());
        pass
    }

    /// Comes to rest in the phase `phase`, at `position`.
    fn rest(&mut self, phase: Phase, position: usize)
        ensures
            final(self)@ == resting(old(self)@.outputs, phase, position as nat),
    {
        self.phase = phase;
        self.position = position;
        self.block_index = 0;
        self.inputs = Vec::new();
        self.iterations = 0;
        self.iteration = 0;
        assert(self@.inputs =~= Seq::<OutputView>::empty());
    }
}

impl BlockContext {
    /// One step of a pass over the blocks: takes note of what the pass is
    /// told, and says what it asks for next. A pass begins with
    /// [`Evaluation::new`] and [`PassEvent::Start`]; after each
    /// [`PassAction::Call`] it is told what the block returned.
    pub fn run(&self, pass: &mut Evaluation, event: PassEvent) -> (action: PassAction)
        requires
            self@.runnable(),
            pass_wf(self@, old(pass)@),
            expects(self@, old(pass)@, event@),
        ensures
            (final(pass)@, action@) == step(self@, old(pass)@, event@),
            pass_wf(self@, final(pass)@),
            action@ == request_of(final(pass)@),
            !(final(pass)@.phase is Idle),
    {
        proof {
            lemma_step_tells_phase(self@, pass@, event@);
        }
        let ghost ctx = self@;
        let ghost begun = pass@;
        let ghost told = event@;
        let places = self.graph_order.len();
        match event {
            PassEvent::Returned(returned) => {
                if let Some(results) = returned {
                    match &self.blocks[pass.block_index] {
                        Some(block) => {
                            assert(ctx.blocks[pass.block_index as int] == Some(block@));
                            record_results(&mut pass.outputs, &block.outputs, results);
                        },
                        None => {},
                    }
                }
                pass.iteration = pass.iteration + 1;
            },
            PassEvent::Start => {},
        }
        assert(pass@ == after_event(ctx, begun, told));
        let ghost noted = pass@;
        let start: usize = match pass.phase {
            Phase::Finished => {
                return PassAction::Finished;
            },
            Phase::Failed(e) => {
                return PassAction::Failed(e);
            },
            Phase::Calling => {
                if pass.iteration < pass.iterations {
                    let inputs = select_inputs(&pass.inputs, pass.iteration);
                    return PassAction::Call { block_index: pass.block_index, inputs };
                }
                assert(pass.position < places);
                pass.position + 1
            },
            Phase::Idle => 0,
        };
        assert(step(ctx, begun, told) == seek(ctx, noted.outputs, start as nat));
        let mut position: usize = start;
        while position < self.graph_order.len()
            invariant
                ctx == self@,
                ctx.runnable(),
                start <= position <= ctx.graph_order.len(),
                pass@ == noted,
                begun == old(pass)@,
                told == event@,
                step(ctx, begun, told) == seek(ctx, noted.outputs, start as nat),
                seek(ctx, noted.outputs, position as nat) == seek(ctx, noted.outputs, start as nat),
            decreases ctx.graph_order.len() - position,
        {
            let graph_index = self.graph_order[position];
            assert(ctx.graph_order[position as int] == graph_index);
            let id = self.graph.nodes[graph_index].value;
            assert(ctx.graph[graph_index as int].value == id);
            let found = self.block_ids.get(&id);
            let block_index = *found.unwrap();
            assert(block_index == ctx.block_index_at(position as int));
            match &self.blocks[block_index] {
                None => {
                    assert(ctx.blocks[block_index as int] is None);
                },
                Some(block) => {
                    assert(ctx.blocks[block_index as int] == Some(block@));
                    proof {
                        lemma_outputs_bounded(pass.outputs@);
                    }
                    match prepare_inputs(block, &self.input_output, &self.inputs, &pass.outputs) {
                        Err(e) => {
                            pass.rest(Phase::Failed(e), position);
                            return PassAction::Failed(e);
                        },
                        Ok((inputs, iterations)) => {
                            if iterations > 0 {
                                proof {
                                    lemma_prepared_uniform(block@, ctx.input_output, ctx.inputs, noted.outputs);
                                }
                                let first = select_inputs(&inputs, 0);
                                pass.phase = Phase::Calling;
                                pass.position = position;
                                pass.block_index = block_index;
                                pass.inputs = inputs;
                                pass.iterations = iterations;
                                pass.iteration = 0;
                                return PassAction::Call { block_index, inputs: first };
                            }
                        },
                    }
                },
            }
            position += 1;
        }
        pass.rest(Phase::Finished, position);
        PassAction::Finished
    }
}

} // verus!

//! The blocks that move values without computing on them, and what a block
//! is given besides its inputs when it runs.

use crate::block::{BlockConnectionNode, BlockView, ConnectionType, DraggableBlock, PortView};
use crate::id::{Id, IdAllocator};
use crate::value::{results_view, values_view, InputValue, OutputResult, OutputView, ValueView};
use rand::Rng;
use rand::SeedableRng;
use rand_chacha::ChaCha8Rng;
use vstd::prelude::*;
use vstd::string::StringExecFns;

verus! {

/// The generator `ChaCha8Rng` of `rand_chacha`. Nothing of what is inside it
/// is known here.
#[verifier::external_type_specification]
#[verifier::external_body]
pub struct ExChaCha8Rng(rand_chacha::ChaCha8Rng);

/// What a block is given besides its inputs: the size of the screen, how
/// far the playhead has come, from 0 to 1, and a source of chance. The
/// three numbers are bit patterns, see [`crate::value`].
pub struct BlockRunContext {
    pub screen_w: u32,
    pub screen_h: u32,
    pub percentage: u32,
    pub rng: ChaCha8Rng,
}

/// `SeedableRng::seed_from_u64` of `rand`, for the generator `ChaCha8Rng`
/// of `rand_chacha`: a generator whose output follows from `seed`. Nothing
/// is claimed of the generator.
#[verifier::external_body]
fn seeded_generator(seed: u64) -> (rng: ChaCha8Rng) {
    ChaCha8Rng::seed_from_u64(seed)
}

/// `Rng::gen_ratio` of `rand`: one throw of a coin that shows heads in
/// `numerator` of `denominator` throws, which takes one number from the
/// generator. Nothing is claimed of how it falls. The call fails on a
/// denominator of zero and on a numerator above the denominator.
#[verifier::external_body]
fn toss(rng: &mut ChaCha8Rng, numerator: u32, denominator: u32) -> (heads: bool)
    requires
        denominator > 0,
        numerator <= denominator,
{
    rng.gen_ratio(numerator, denominator)
}

impl BlockRunContext {
    /// The context of the blocks of one graph in one frame. The source of
    /// chance starts from `seed`.
    pub fn new(screen_w: u32, screen_h: u32, percentage: u32, seed: u64) -> (ctx: BlockRunContext)
        ensures
            ctx.screen_w == screen_w,
            ctx.screen_h == screen_h,
            ctx.percentage == percentage,
    {
        BlockRunContext { screen_w, screen_h, percentage, rng: seeded_generator(seed) }
    }

    /// Width and height of the screen.
    pub fn get_screen_space(&self) -> (size: (u32, u32))
        ensures
            size == (self.screen_w, self.screen_h),
    {
        (self.screen_w, self.screen_h)
    }
}

/// The name of a block of the kind `kind` with the identity `id`: the
/// number of the identity in round brackets, then the kind.
pub open spec fn block_name(id: Id, kind: Seq<char>) -> Seq<char> {
    id.text() + " "@ + kind
}

/// Writes the name of a block of the kind `kind` with the identity `id`.
fn name_block(id: Id, kind: &str) -> (name: String)
    ensures
        name@ == block_name(id, kind@),
{
    let mut name = id.to_text();
    name.append(" ");
    name.append(kind);
    name
}

/// A port as it is made for a block: not yet owned, at rest.
pub open spec fn fresh_port(
    id: usize,
    name: Seq<char>,
    value: ValueView,
    connection_type: ConnectionType,
) -> PortView {
    PortView {
        id: Id(id),
        parent_id: Id(0),
        name,
        value,
        connection_type,
        is_being_hovered: false,
        is_dragging_line: false,
    }
}

/// A port that is to be made: its name and the value that it holds.
pub struct PortPlan {
    pub name: String,
    pub value: InputValue,
}

impl PortPlan {
    /// The plan of a port named `name` that holds `value`.
    pub fn new(name: &str, value: InputValue) -> (plan: PortPlan)
        ensures
            plan.name@ == name@,
            plan.value@ == value@,
    {
        PortPlan { name: name.to_string(), value }
    }
}

/// The ports that are made from `plans` on the side `connection_type`, in
/// their order, with identities that rise from `first`.
pub open spec fn planned_ports(
    plans: Seq<PortPlan>,
    connection_type: ConnectionType,
    first: int,
) -> Seq<PortView> {
    Seq::new(
        plans.len(),
        |k: int| fresh_port((first + k) as usize, plans[k].name@, plans[k].value@, connection_type),
    )
}

/// Makes the ports that `plans` describes, on the side `connection_type`.
fn make_ports(ids: &mut IdAllocator, plans: Vec<PortPlan>, connection_type: ConnectionType) -> (ports:
    Vec<BlockConnectionNode>)
    requires
        old(ids).next_id() + plans@.len() <= usize::MAX,
    ensures
        final(ids).next_id() == old(ids).next_id() + plans@.len(),
        crate::block::ports_view(ports@) == planned_ports(
            plans@,
            connection_type,
            old(ids).next_id() as int,
        ),
{
    let ghost first = ids.next_id() as int;
    let ghost given = plans@;
    let count = plans.len();
    let mut turned = crate::context::turned_round(plans);
    let mut ports: Vec<BlockConnectionNode> = Vec::new();
    let mut k: usize = 0;
    while k < count
        invariant
            k <= count,
            given.len() == count,
            first + count <= usize::MAX,
            ids.next_id() == first + k,
            turned@.len() == count - k,
            forall|j: int| 0 <= j < turned@.len() ==> #[trigger] turned@[j] == given[count - 1 - j],
            ports@.len() == k,
            forall|j: int|
                0 <= j < k ==> (#[trigger] ports@[j])@ == fresh_port(
                    (first + j) as usize,
                    given[j].name@,
                    given[j].value@,
                    connection_type,
                ),
        decreases count - k,
    {
        let plan = turned.pop().unwrap();
        assert(plan == given[k as int]);
        let port = BlockConnectionNode::new_with_input_type(
            plan.name.as_str(),
            plan.value,
            connection_type,
            ids,
        );
        ports.push(port);
        k += 1;
    }
    assert(crate::block::ports_view(ports@) =~= planned_ports(given, connection_type, first));
    ports
}

/// The block of the kind `kind` that is made when the next identity is
/// `first`: the block takes that identity, its inputs the ones that follow,
/// and its outputs the ones after those.
pub open spec fn planned_block(
    first: int,
    kind: Seq<char>,
    inputs: Seq<PortPlan>,
    outputs: Seq<PortPlan>,
    flatten_inputs: bool,
) -> BlockView {
    BlockView {
        id: Id(first as usize),
        name: block_name(Id(first as usize), kind),
        flatten_inputs,
        being_dragged_from: None,
        inputs: planned_ports(inputs, ConnectionType::Inputs, first + 1),
        outputs: planned_ports(outputs, ConnectionType::Outputs, first + 1 + inputs.len()),
    }
}

/// Makes a block of the kind `kind` with the ports that `inputs` and
/// `outputs` describe. Its name tells its identity and its kind.
pub fn make_block(
    ids: &mut IdAllocator,
    kind: &str,
    inputs: Vec<PortPlan>,
    outputs: Vec<PortPlan>,
    flatten_inputs: bool,
) -> (block: DraggableBlock)
    requires
        old(ids).next_id() + 1 + inputs@.len() + outputs@.len() <= usize::MAX,
    ensures
        final(ids).next_id() == old(ids).next_id() + 1 + inputs@.len() + outputs@.len(),
        block@ == planned_block(
            old(ids).next_id() as int,
            kind@,
            inputs@,
            outputs@,
            flatten_inputs,
        ),
        crate::wiring::sided(block@),
{
    let mut block = DraggableBlock::new(ids);
    block.inputs = make_ports(ids, inputs, ConnectionType::Inputs);
    block.outputs = make_ports(ids, outputs, ConnectionType::Outputs);
    block.flatten_inputs = flatten_inputs;
    block.name = name_block(block.id, kind);
    block
}

/// Hands the points that it receives on as one list.
pub struct FlattenPointsBlock;

impl FlattenPointsBlock {
    /// What the block returns for `inputs`: the list of points that is its
    /// first input; nothing where that is no list of points.
    pub open spec fn result_of(inputs: Seq<ValueView>) -> Option<Seq<OutputView>> {
        if inputs[0] is ListPoints {
            Some(seq![OutputView::SingleValue(inputs[0])])
        } else {
            None
        }
    }

    /// One run of the block.
    pub fn run(inputs: &Vec<InputValue>, _ctx: &mut BlockRunContext) -> (result: Option<
        Vec<OutputResult>,
    >)
        requires
            inputs@.len() >= 1,
        ensures
            match Self::result_of(values_view(inputs@)) {
                Some(out) => result matches Some(r) && results_view(r@) == out,
                None => result is None,
            },
            *final(_ctx) == *old(_ctx),
    {
        assert(values_view(inputs@)[0] == inputs@[0]@);
        match &inputs[0] {
            InputValue::ListPoints(_) => {
                let mut out: Vec<OutputResult> = Vec::new();
                out.push(OutputResult::SingleValue(inputs[0].clone()));
                assert(results_view(out@) =~= seq![OutputView::SingleValue(inputs@[0]@)]);
                Some(out)
            },
            _ => None,
        }
    }

    /// The block as it goes into a graph: one input that takes points, one
    /// output that gives a list of points, inputs flattened.
    pub fn to_draggable_block(ids: &mut IdAllocator) -> (block: DraggableBlock)
        requires
            old(ids).next_id() + 3 <= usize::MAX,
        ensures
            final(ids).next_id() == old(ids).next_id() + 3,
            block@ == (BlockView {
                id: Id(old(ids).next_id()),
                name: block_name(Id(old(ids).next_id()), "FlattenPoints"@),
                flatten_inputs: true,
                being_dragged_from: None,
                inputs: seq![
                    fresh_port(
                        (old(ids).next_id() + 1) as usize,
                        "pts"@,
                        ValueView::Point((0, 0)),
                        ConnectionType::Inputs,
                    ),
                ],
                outputs: seq![
                    fresh_port(
                        (old(ids).next_id() + 2) as usize,
                        "pts"@,
                        ValueView::ListPoints(Seq::empty()),
                        ConnectionType::Outputs,
                    ),
                ],
            }),
    {
        let ghost first = ids.next_id() as int;
        let mut inputs: Vec<PortPlan> = Vec::new();
        inputs.push(PortPlan::new("pts", InputValue::Point((0, 0))));
        let mut outputs: Vec<PortPlan> = Vec::new();
        outputs.push(PortPlan::new("pts", InputValue::ListPoints(Vec::new())));
        let ghost input_plans = inputs@;
        let ghost output_plans = outputs@;
        let block = make_block(ids, "FlattenPoints", inputs, outputs, true);
        proof {
            assert(planned_ports(input_plans, ConnectionType::Inputs, first + 1) =~= seq![
                fresh_port(
                    (first + 1) as usize,
                    "pts"@,
                    ValueView::Point((0, 0)),
                    ConnectionType::Inputs,
                ),
            ]);
            assert(planned_ports(output_plans, ConnectionType::Outputs, first + 2) =~= seq![
                fresh_port(
                    (first + 2) as usize,
                    "pts"@,
                    ValueView::ListPoints(Seq::empty()),
                    ConnectionType::Outputs,
                ),
            ]);
        }
        block
    }
}

/// Hands on two of its four points: the first and the third, or the second
/// and the fourth, as chance has it.
pub struct RandomPointBlock;

impl RandomPointBlock {
    /// What the block returns for `inputs` when the coin shows `heads`: the
    /// first and the third point on heads, the second and the fourth on
    /// tails. An input that is no point counts as the origin.
    pub open spec fn result_of(inputs: Seq<ValueView>, heads: bool) -> Seq<OutputView> {
        if heads {
            seq![
                OutputView::SingleValue(ValueView::Point(inputs[0].point_or_origin())),
                OutputView::SingleValue(ValueView::Point(inputs[2].point_or_origin())),
            ]
        } else {
            seq![
                OutputView::SingleValue(ValueView::Point(inputs[1].point_or_origin())),
                OutputView::SingleValue(ValueView::Point(inputs[3].point_or_origin())),
            ]
        }
    }

    /// The points that the block hands on when the coin shows `heads`.
    pub fn pick(inputs: &Vec<InputValue>, heads: bool) -> (result: Vec<OutputResult>)
        requires
            inputs@.len() >= 4,
        ensures
            results_view(result@) == Self::result_of(values_view(inputs@), heads),
    {
        let pt0 = inputs[0].as_point();
        let pt1 = inputs[1].as_point();
        let pt2 = inputs[2].as_point();
        let pt3 = inputs[3].as_point();
        proof {
            assert(values_view(inputs@)[0] == inputs@[0]@);
            assert(values_view(inputs@)[1] == inputs@[1]@);
            assert(values_view(inputs@)[2] == inputs@[2]@);
            assert(values_view(inputs@)[3] == inputs@[3]@);
        }
        let mut out: Vec<OutputResult> = Vec::new();
        if heads {
            out.push(OutputResult::SingleValue(InputValue::Point(pt0)));
            out.push(OutputResult::SingleValue(InputValue::Point(pt2)));
        } else {
            out.push(OutputResult::SingleValue(InputValue::Point(pt1)));
            out.push(OutputResult::SingleValue(InputValue::Point(pt3)));
        }
        assert(results_view(out@) =~= Self::result_of(values_view(inputs@), heads));
        out
    }

    /// One run of the block: throws a fair coin once, with the generator of
    /// `ctx`.
    pub fn run(inputs: &Vec<InputValue>, ctx: &mut BlockRunContext) -> (result: Option<
        Vec<OutputResult>,
    >)
        requires
            inputs@.len() >= 4,
        ensures
            result matches Some(r) && (results_view(r@) == Self::result_of(values_view(inputs@), true)
                || results_view(r@) == Self::result_of(values_view(inputs@), false)),
            final(ctx).screen_w == old(ctx).screen_w,
            final(ctx).screen_h == old(ctx).screen_h,
            final(ctx).percentage == old(ctx).percentage,
    {
        let heads = toss(&mut ctx.rng, 1, 2);
        Some(Self::pick(inputs, heads))
    }

    /// The block as it goes into a graph: four inputs that take points, two
    /// outputs that give points.
    pub fn to_draggable_block(ids: &mut IdAllocator) -> (block: DraggableBlock)
        requires
            old(ids).next_id() + 7 <= usize::MAX,
        ensures
            final(ids).next_id() == old(ids).next_id() + 7,
            block@ == (BlockView {
                id: Id(old(ids).next_id()),
                name: block_name(Id(old(ids).next_id()), "RandomPoint"@),
                flatten_inputs: false,
                being_dragged_from: None,
                inputs: seq![
                    fresh_port(
                        (old(ids).next_id() + 1) as usize,
                        "pt0"@,
                        ValueView::Point((0, 0)),
                        ConnectionType::Inputs,
                    ),
                    fresh_port(
                        (old(ids).next_id() + 2) as usize,
                        "pt1"@,
                        ValueView::Point((0, 0)),
                        ConnectionType::Inputs,
                    ),
                    fresh_port(
                        (old(ids).next_id() + 3) as usize,
                        "pt2"@,
                        ValueView::Point((0, 0)),
                        ConnectionType::Inputs,
                    ),
                    fresh_port(
                        (old(ids).next_id() + 4) as usize,
                        "pt3"@,
                        ValueView::Point((0, 0)),
                        ConnectionType::Inputs,
                    ),
                ],
                outputs: seq![
                    fresh_port(
                        (old(ids).next_id() + 5) as usize,
                        "ptA"@,
                        ValueView::Point((0, 0)),
                        ConnectionType::Outputs,
                    ),
                    fresh_port(
                        (old(ids).next_id() + 6) as usize,
                        "ptB"@,
                        ValueView::Point((0, 0)),
                        ConnectionType::Outputs,
                    ),
                ],
            }),
    {
        let ghost first = ids.next_id() as int;
        let mut inputs: Vec<PortPlan> = Vec::new();
        inputs.push(PortPlan::new("pt0", InputValue::Point((0, 0))));
        inputs.push(PortPlan::new("pt1", InputValue::Point((0, 0))));
        inputs.push(PortPlan::new("pt2", InputValue::Point((0, 0))));
        inputs.push(PortPlan::new("pt3", InputValue::Point((0, 0))));
        let mut outputs: Vec<PortPlan> = Vec::new();
        outputs.push(PortPlan::new("ptA", InputValue::Point((0, 0))));
        outputs.push(PortPlan::new("ptB", InputValue::Point((0, 0))));
        let ghost input_plans = inputs@;
        let ghost output_plans = outputs@;
        let block = make_block(ids, "RandomPoint", inputs, outputs, false);
        proof {
            assert(planned_ports(input_plans, ConnectionType::Inputs, first + 1) =~= seq![
                fresh_port(
                    (first + 1) as usize,
                    "pt0"@,
                    ValueView::Point((0, 0)),
                    ConnectionType::Inputs,
                ),
                fresh_port(
                    (first + 2) as usize,
                    "pt1"@,
                    ValueView::Point((0, 0)),
                    ConnectionType::Inputs,
                ),
                fresh_port(
                    (first + 3) as usize,
                    "pt2"@,
                    ValueView::Point((0, 0)),
                    ConnectionType::Inputs,
                ),
                fresh_port(
                    (first + 4) as usize,
                    "pt3"@,
                    ValueView::Point((0, 0)),
                    ConnectionType::Inputs,
                ),
            ]);
            assert(planned_ports(output_plans, ConnectionType::Outputs, first + 5) =~= seq![
                fresh_port(
                    (first + 5) as usize,
                    "ptA"@,
                    ValueView::Point((0, 0)),
                    ConnectionType::Outputs,
                ),
                fresh_port(
                    (first + 6) as usize,
                    "ptB"@,
                    ValueView::Point((0, 0)),
                    ConnectionType::Outputs,
                ),
            ]);
        }
        block
    }
}

} // verus!

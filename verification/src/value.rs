//! The values that flow between the ports of blocks.
//!
//! Scalars, coordinates and color channels are carried as the bit patterns
//! of their IEEE-754 encoding: 64 bits for a number, 32 bits for each
//! coordinate of a point and for each channel of a color. The engine moves
//! these values and never computes with them, so the all-zero pattern, which
//! encodes `0.0`, is the only one it ever makes up.

use vstd::prelude::*;

verus! {

/// A color of four channels: red, green, blue, alpha.
#[derive(Clone, Copy, Debug, PartialEq, Eq, Structural)]
pub struct Color {
    pub r: u32,
    pub g: u32,
    pub b: u32,
    pub a: u32,
}

/// The tag of a value, without its content.
#[derive(Clone, Copy, Debug, PartialEq, Eq, Structural)]
pub enum ValueKind {
    Number,
    Point,
    Color,
    Selection,
    ListNumbers,
    ListPoints,
}

/// A value held by a port or handed to a block.
#[derive(Debug)]
pub enum InputValue {
    Number(u64),
    Point((u32, u32)),
    Color(Color),
    /// An index into a fixed list of strings.
    Selection((usize, Vec<String>)),
    ListNumbers(Vec<u64>),
    ListPoints(Vec<(u32, u32)>),
}

/// The mathematical content of an [`InputValue`].
pub ghost enum ValueView {
    Number(u64),
    Point((u32, u32)),
    Color(Color),
    Selection((usize, Seq<Seq<char>>)),
    ListNumbers(Seq<u64>),
    ListPoints(Seq<(u32, u32)>),
}

/// The strings of a list, each as its sequence of characters.
pub open spec fn strings_view(strings: Seq<String>) -> Seq<Seq<char>> {
    Seq::new(strings.len(), |k: int| strings[k]@)
}

/// The values of a list, each as its content.
pub open spec fn values_view(values: Seq<InputValue>) -> Seq<ValueView> {
    Seq::new(values.len(), |k: int| values[k]@)
}

impl View for InputValue {
    type V = ValueView;

    open spec fn view(&self) -> ValueView {
        match *self {
            InputValue::Number(x) => ValueView::Number(x),
            InputValue::Point(p) => ValueView::Point(p),
            InputValue::Color(c) => ValueView::Color(c),
            InputValue::Selection((i, options)) => ValueView::Selection((i, strings_view(options@))),
            InputValue::ListNumbers(xs) => ValueView::ListNumbers(xs@),
            InputValue::ListPoints(ps) => ValueView::ListPoints(ps@),
        }
    }
}

impl ValueView {
    pub open spec fn kind(self) -> ValueKind {
        match self {
            ValueView::Number(_) => ValueKind::Number,
            ValueView::Point(_) => ValueKind::Point,
            ValueView::Color(_) => ValueKind::Color,
            ValueView::Selection(_) => ValueKind::Selection,
            ValueView::ListNumbers(_) => ValueKind::ListNumbers,
            ValueView::ListPoints(_) => ValueKind::ListPoints,
        }
    }

    /// The number, or zero where the value is no number.
    pub open spec fn number_or_zero(self) -> u64 {
        match self {
            ValueView::Number(x) => x,
            _ => 0,
        }
    }

    /// The point, or the origin where the value is no point.
    pub open spec fn point_or_origin(self) -> (u32, u32) {
        match self {
            ValueView::Point(p) => p,
            _ => (0, 0),
        }
    }

    /// The color, or transparent black where the value is no color.
    pub open spec fn color_or_transparent(self) -> Color {
        match self {
            ValueView::Color(c) => c,
            _ => Color { r: 0, g: 0, b: 0, a: 0 },
        }
    }

    /// The points, or no points where the value is no list of points.
    pub open spec fn points_or_none(self) -> Seq<(u32, u32)> {
        match self {
            ValueView::ListPoints(ps) => ps,
            _ => Seq::empty(),
        }
    }

    /// The selected string, or the empty string where the value is no
    /// selection.
    pub open spec fn selected_or_empty(self) -> Seq<char> {
        match self {
            ValueView::Selection((i, options)) => options[i as int],
            _ => Seq::empty(),
        }
    }

    /// A selection points into its list.
    pub open spec fn selection_in_range(self) -> bool {
        match self {
            ValueView::Selection((i, options)) => i < options.len(),
            _ => true,
        }
    }
}

/// A copy of a list of numbers.
pub fn copy_numbers(numbers: &Vec<u64>) -> (copy: Vec<u64>)
    ensures
        copy@ == numbers@,
{
    let mut copy: Vec<u64> = Vec::new();
    let mut k: usize = 0;
    while k < numbers.len()
        invariant
            k <= numbers@.len(),
            copy@ == numbers@.take(k as int),
        decreases numbers@.len() - k,
    {
        copy.push(numbers[k]);
        assert(numbers@.take(k + 1) =~= numbers@.take(k as int).push(numbers@[k as int]));
        k += 1;
    }
    assert(numbers@.take(k as int) =~= numbers@);
    copy
}

/// A copy of a list of points.
pub fn copy_points(points: &Vec<(u32, u32)>) -> (copy: Vec<(u32, u32)>)
    ensures
        copy@ == points@,
{
    let mut copy: Vec<(u32, u32)> = Vec::new();
    let mut k: usize = 0;
    while k < points.len()
        invariant
            k <= points@.len(),
            copy@ == points@.take(k as int),
        decreases points@.len() - k,
    {
        copy.push(points[k]);
        assert(points@.take(k + 1) =~= points@.take(k as int).push(points@[k as int]));
        k += 1;
    }
    assert(points@.take(k as int) =~= points@);
    copy
}

/// A copy of a list of strings.
pub fn copy_strings(strings: &Vec<String>) -> (copy: Vec<String>)
    ensures
        strings_view(copy@) == strings_view(strings@),
{
    let mut copy: Vec<String> = Vec::new();
    let mut k: usize = 0;
    while k < strings.len()
        invariant
            k <= strings@.len(),
            copy@.len() == k,
            forall|j: int| 0 <= j < k ==> (#[trigger] copy@[j])@ == strings@[j]@,
        decreases strings@.len() - k,
    {
        copy.push(strings[k].clone());
        k += 1;
    }
    assert(strings_view(copy@) =~= strings_view(strings@));
    copy
}

impl Clone for InputValue {
    fn clone(&self) -> (copy: Self)
        ensures
            copy@ == self@,
    {
        match self {
            InputValue::Number(x) => InputValue::Number(*x),
            InputValue::Point(p) => InputValue::Point(*p),
            InputValue::Color(c) => InputValue::Color(*c),
            InputValue::Selection((i, options)) => InputValue::Selection((*i, copy_strings(options))),
            InputValue::ListNumbers(xs) => InputValue::ListNumbers(copy_numbers(xs)),
            InputValue::ListPoints(ps) => InputValue::ListPoints(copy_points(ps)),
        }
    }
}

/// A copy of a list of values.
pub fn copy_values(values: &Vec<InputValue>) -> (copy: Vec<InputValue>)
    ensures
        values_view(copy@) == values_view(values@),
{
    let mut copy: Vec<InputValue> = Vec::new();
    let mut k: usize = 0;
    while k < values.len()
        invariant
            k <= values@.len(),
            copy@.len() == k,
            forall|j: int| 0 <= j < k ==> (#[trigger] copy@[j])@ == values@[j]@,
        decreases values@.len() - k,
    {
        copy.push(values[k].clone());
        k += 1;
    }
    assert(values_view(copy@) =~= values_view(values@));
    copy
}

impl InputValue {
    /// The tag of the value.
    pub fn kind(&self) -> (kind: ValueKind)
        ensures
            kind == self@.kind(),
    {
        match self {
            InputValue::Number(_) => ValueKind::Number,
            InputValue::Point(_) => ValueKind::Point,
            InputValue::Color(_) => ValueKind::Color,
            InputValue::Selection(_) => ValueKind::Selection,
            InputValue::ListNumbers(_) => ValueKind::ListNumbers,
            InputValue::ListPoints(_) => ValueKind::ListPoints,
        }
    }

    /// A selection of the first of `options`.
    pub fn selection(options: &[&str]) -> (value: InputValue)
        ensures
            value@ == ValueView::Selection(
                (0usize, Seq::new(options@.len(), |k: int| options@[k]@)),
            ),
    {
        let mut strings: Vec<String> = Vec::new();
        let mut k: usize = 0;
        while k < options.len()
            invariant
                k <= options@.len(),
                strings@.len() == k,
                forall|j: int| 0 <= j < k ==> (#[trigger] strings@[j])@ == options@[j]@,
            decreases options@.len() - k,
        {
            strings.push(options[k].to_string());
            k += 1;
        }
        assert(strings_view(strings@) =~= Seq::new(options@.len(), |k: int| options@[k]@));
        InputValue::Selection((0, strings))
    }

    /// The bits of the number; of zero where the value is no number.
    pub fn as_f64(&self) -> (bits: u64)
        ensures
            bits == self@.number_or_zero(),
    {
        match self {
            InputValue::Number(x) => *x,
            _ => 0,
        }
    }

    /// The point; the origin where the value is no point.
    pub fn as_point(&self) -> (point: (u32, u32))
        ensures
            point == self@.point_or_origin(),
    {
        match self {
            InputValue::Point(p) => *p,
            _ => (0, 0),
        }
    }

    /// The points of the list; none where the value is no list of points.
    pub fn as_list_points(&self) -> (points: &[(u32, u32)])
        ensures
            points@ == self@.points_or_none(),
    {
        match self {
            InputValue::ListPoints(ps) => ps.as_slice(),
            _ => &[],
        }
    }

    /// The color; transparent black where the value is no color.
    pub fn as_color(&self) -> (color: Color)
        ensures
            color == self@.color_or_transparent(),
    {
        match self {
            InputValue::Color(c) => *c,
            _ => Color { r: 0, g: 0, b: 0, a: 0 },
        }
    }

    /// The selected string; the empty string where the value is no
    /// selection.
    pub fn as_str(&self) -> (selected: &str)
        requires
            self@.selection_in_range(),
        ensures
            selected@ == self@.selected_or_empty(),
    {
        match self {
            InputValue::Selection((i, options)) => options[*i].as_str(),
            _ => {
                proof {
                    reveal_strlit("");
                }
                ""
            },
        }
    }
}

/// What one run of a block hands to one of its output ports.
#[derive(Debug)]
pub enum OutputResult {
    SingleValue(InputValue),
    /// A sequence of values: who consumes it runs once for each.
    Iteration(Vec<InputValue>),
}

/// The mathematical content of an [`OutputResult`].
pub ghost enum OutputView {
    SingleValue(ValueView),
    Iteration(Seq<ValueView>),
}

impl View for OutputResult {
    type V = OutputView;

    open spec fn view(&self) -> OutputView {
        match *self {
            OutputResult::SingleValue(v) => OutputView::SingleValue(v@),
            OutputResult::Iteration(vs) => OutputView::Iteration(values_view(vs@)),
        }
    }
}

impl OutputView {
    /// The values that the result carries, in order.
    pub open spec fn elements(self) -> Seq<ValueView> {
        match self {
            OutputView::SingleValue(v) => seq![v],
            OutputView::Iteration(vs) => vs,
        }
    }
}

impl Clone for OutputResult {
    fn clone(&self) -> (copy: Self)
        ensures
            copy@ == self@,
    {
        match self {
            OutputResult::SingleValue(v) => OutputResult::SingleValue(v.clone()),
            OutputResult::Iteration(vs) => OutputResult::Iteration(copy_values(vs)),
        }
    }
}

/// The results of a list, each as its content.
pub open spec fn results_view(results: Seq<OutputResult>) -> Seq<OutputView> {
    Seq::new(results.len(), |k: int| results[k]@)
}

} // verus!

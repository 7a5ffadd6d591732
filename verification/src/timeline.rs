//! The timeline: in which order the graphs on it are evaluated, and what
//! becomes of their errors.
//!
//! Where the graphs lie on the timeline, and where the playhead is, is kept
//! outside of this library. Each graph that the playhead touches comes with
//! a whole number for its height; the higher a graph lies, the later it is
//! evaluated, so that what it draws lies on top.

use crate::dependency_resolution::{mentions, permutes};
use crate::evaluation::EvalError;
use vstd::prelude::*;
use vstd::string::StringExecFns;

verus! {

/// One error, in words.
#[derive(Debug)]
pub struct ErrorMessage {
    pub e: String,
}

/// The errors that the user has not dismissed yet, oldest first.
#[derive(Debug)]
pub struct ErrorQueue {
    pub errors: Vec<ErrorMessage>,
}

impl View for ErrorQueue {
    type V = Seq<Seq<char>>;

    open spec fn view(&self) -> Seq<Seq<char>> {
        Seq::new(self.errors@.len(), |k: int| self.errors@[k].e@)
    }
}

/// What the user is told before the first error.
pub open spec fn pause_notice() -> Seq<char> {
    "Error during evaluation. Pausing preview. Close all error messages to resume"@
}

impl ErrorQueue {
    /// A queue without errors.
    pub fn new() -> (queue: ErrorQueue)
        ensures
            queue@ == Seq::<Seq<char>>::empty(),
    {
        let queue = ErrorQueue { errors: Vec::new() };
        assert(queue@ =~= Seq::<Seq<char>>::empty());
        queue
    }

    /// Is there an error that the user has not dismissed?
    pub fn has_errors(&self) -> (any: bool)
        ensures
            any == (self@.len() > 0),
    {
        self.errors.len() > 0
    }

    /// Takes the error at `index` away.
    pub fn dismiss(&mut self, index: usize)
        requires
            index < old(self)@.len(),
        ensures
            final(self)@ == old(self)@.remove(index as int),
    {
        self.errors.remove(index);
        assert(self@ =~= old(self)@.remove(index as int));
    }
}

/// The graphs that one frame evaluates, in the order of their evaluation,
/// and how many of them have had their turn.
pub struct Schedule {
    /// Places in the list of the graphs that the playhead touches.
    pub order: Vec<usize>,
    pub position: usize,
}

/// The mathematical content of a [`Schedule`].
pub ghost struct ScheduleView {
    pub order: Seq<usize>,
    pub position: nat,
}

impl View for Schedule {
    type V = ScheduleView;

    open spec fn view(&self) -> ScheduleView {
        ScheduleView { order: self.order@, position: self.position as nat }
    }
}

/// The timeline, as far as it decides.
pub struct Timeline {
    /// Whether the playhead moves on by itself. It does not while an error
    /// waits to be dismissed.
    pub running: bool,
}

/// `order` holds the places `0 .. heights.len()`, each once, from the highest
/// to the lowest; places of one height stand as they come.
pub open spec fn in_draw_order(heights: Seq<i64>, order: Seq<usize>) -> bool {
    &&& permutes(order, heights.len() as int)
    &&& forall|i: int, j: int|
        0 <= i < j < order.len() ==> heights[(#[trigger] order[i]) as int] >= heights[(
        #[trigger] order[j]) as int]
    &&& forall|i: int, j: int|
        0 <= i < j < order.len() && heights[(#[trigger] order[i]) as int] == heights[(
        #[trigger] order[j]) as int] ==> order[i] < order[j]
}

/// The place `a` is drawn before the place `b`: it lies higher, or as high
/// and comes first.
pub open spec fn drawn_before(heights: Seq<i64>, a: usize, b: usize) -> bool {
    heights[a as int] > heights[b as int] || (heights[a as int] == heights[b as int] && a < b)
}

/// There is one draw order only.
pub proof fn lemma_draw_order_unique(heights: Seq<i64>, first: Seq<usize>, second: Seq<usize>)
    requires
        in_draw_order(heights, first),
        in_draw_order(heights, second),
    ensures
        first == second,
{
    assert forall|p: int| 0 <= p < first.len() implies first[p] == second[p] by {
        lemma_draw_order_agrees(heights, first, second, p);
    }
    assert(first =~= second);
}

/// Two draw orders agree at every index.
proof fn lemma_draw_order_agrees(heights: Seq<i64>, first: Seq<usize>, second: Seq<usize>, p: int)
    requires
        in_draw_order(heights, first),
        in_draw_order(heights, second),
        0 <= p < first.len(),
    ensures
        first[p] == second[p],
    decreases p,
{
    assert forall|i: int| 0 <= i < p implies first[i] == second[i] by {
        lemma_draw_order_agrees(heights, first, second, i);
    }
    if first[p] != second[p] {
        assert(mentions(second, first[p] as int));
        let q = choose|q: int| 0 <= q < second.len() && #[trigger] second[q] as int == first[p] as int;
        assert(mentions(first, second[p] as int));
        let r = choose|r: int| 0 <= r < first.len() && #[trigger] first[r] as int == second[p] as int;
        if q < p {
            assert(first[q] == second[q]);
            assert(first[q] == first[p]);
        }
        if r < p {
            assert(second[r] == first[r]);
            assert(second[r] == second[p]);
        }
        assert(p < q && p < r);
        assert(drawn_before(heights, first[p], first[r]));
        assert(drawn_before(heights, second[p], second[q]));
    }
}

/// The queue after the error `e` was reported: the first error of an empty
/// queue comes behind a notice that tells the user how to go on.
pub open spec fn reported(queue: Seq<Seq<char>>, e: Seq<char>) -> Seq<Seq<char>> {
    if queue.len() == 0 {
        seq![pause_notice(), e]
    } else {
        queue.push(e)
    }
}

/// Index of the last of the first `count` entries of `hits` that is `true`.
pub open spec fn last_hit(hits: Seq<bool>, count: nat) -> Option<usize>
    decreases count,
{
    if count == 0 {
        None
    } else if hits[count - 1] {
        Some((count - 1) as usize)
    } else {
        last_hit(hits, (count - 1) as nat)
    }
}

/// What is open after a click on the item `clicked`: that item, unless it
/// was open, in which case nothing is.
pub open spec fn toggled(open_item: Option<usize>, clicked: usize) -> Option<usize> {
    if open_item == Some(clicked) {
        None
    } else {
        Some(clicked)
    }
}

/// The queue after a pass over a graph ended as `finished` says.
pub open spec fn noted(queue: Seq<Seq<char>>, finished: Option<Result<(), EvalError>>) -> Seq<
    Seq<char>,
> {
    match finished {
        Some(Err(e)) => reported(queue, e.message_text()),
        _ => queue,
    }
}

/// The graph that is evaluated next, if any: the next of the schedule, as
/// long as the queue holds no error.
pub open spec fn next_item(schedule: ScheduleView, queue: Seq<Seq<char>>) -> Option<usize> {
    if schedule.position < schedule.order.len() && queue.len() == 0 {
        Some(schedule.order[schedule.position as int])
    } else {
        None
    }
}

impl Timeline {
    /// The schedule of a frame in which the playhead touches graphs of the
    /// heights `heights`.
    pub fn begin_frame(heights: &Vec<i64>) -> (schedule: Schedule)
        ensures
            in_draw_order(heights@, schedule@.order),
            schedule@.position == 0,
    {
        Schedule { order: Self::draw_order(heights), position: 0 }
    }

    /// One step of a frame: takes note of how the pass over the graph that
    /// was evaluated last ended, if one was, and says which graph is
    /// evaluated next. A pass that failed puts its error into the queue.
    /// While the queue holds an error, no graph is evaluated and the
    /// playhead stands still: it runs on only if it ran before and every
    /// error has been dismissed.
    pub fn run(
        &mut self,
        schedule: &mut Schedule,
        error_queue: &mut ErrorQueue,
        finished: Option<Result<(), EvalError>>,
    ) -> (next: Option<usize>)
        ensures
            final(error_queue)@ == noted(old(error_queue)@, finished),
            final(self).running == (old(self).running && final(error_queue)@.len() == 0),
            next == next_item(old(schedule)@, final(error_queue)@),
            finished matches Some(Err(_)) ==> next is None,
            final(schedule)@.order == old(schedule)@.order,
            final(schedule)@.position == if next is Some {
                old(schedule)@.position + 1
            } else {
                old(schedule)@.order.len()
            },
    {
        if let Some(Err(e)) = finished {
            self.report_failure(error_queue, e);
        }
        if error_queue.has_errors() {
            self.running = false;
        }
        if schedule.position < schedule.order.len() && !error_queue.has_errors() {
            let item = schedule.order[schedule.position];
            schedule.position = schedule.position + 1;
            Some(item)
        } else {
            schedule.position = schedule.order.len();
            None
        }
    }

    /// A timeline at rest.
    pub fn new() -> (timeline: Timeline)
        ensures
            !timeline.running,
    {
        Timeline { running: false }
    }

    /// The order in which the graphs that the playhead touches are
    /// evaluated: from the highest to the lowest of `heights`, and graphs of
    /// one height as they come.
    pub fn draw_order(heights: &Vec<i64>) -> (order: Vec<usize>)
        ensures
            in_draw_order(heights@, order@),
    {
        let mut order: Vec<usize> = Vec::new();
        let mut k: usize = 0;
        while k < heights.len()
            invariant
                k <= heights@.len(),
                in_draw_order(heights@.take(k as int), order@),
            decreases heights@.len() - k,
        {
            let ghost placed = order@;
            let ghost known = heights@.take(k as int);
            let mut p: usize = 0;
            while p < order.len() && heights[order[p]] >= heights[k]
                invariant
                    p <= order@.len(),
                    order@ == placed,
                    k < heights@.len(),
                    known == heights@.take(k as int),
                    in_draw_order(known, placed),
                    forall|q: int| 0 <= q < p ==> heights@[placed[q] as int] >= heights@[k as int],
                decreases order@.len() - p,
            {
                p += 1;
            }
            order.insert(p, k);
            proof {
                let after = order@;
                let longer = heights@.take(k + 1);
                assert(after[p as int] == k);
                assert forall|i: int| 0 <= i < after.len() implies (#[trigger] after[i]) < k + 1 by {
                    if i < p {
                        assert(after[i] == placed[i]);
                    } else if i > p {
                        assert(after[i] == placed[i - 1]);
                    }
                }
                assert forall|i: int, j: int|
                    0 <= i < after.len() && 0 <= j < after.len() && i != j implies after[i]
                    != after[j] by {
                    let i_before = if i < p { i } else { i - 1 };
                    let j_before = if j < p { j } else { j - 1 };
                    if i != p && j != p {
                        assert(after[i] == placed[i_before] && after[j] == placed[j_before]);
                    } else if i != p {
                        assert(after[i] == placed[i_before]);
                    } else {
                        assert(after[j] == placed[j_before]);
                    }
                }
                assert forall|v: int| 0 <= v < k + 1 implies #[trigger] mentions(after, v) by {
                    if v < k {
                        assert(mentions(placed, v));
                        let q = choose|q: int| 0 <= q < placed.len() && #[trigger] placed[q] as int == v;
                        if q < p {
                            assert(after[q] as int == v);
                        } else {
                            assert(after[q + 1] as int == v);
                        }
                    } else {
                        assert(after[p as int] as int == v);
                    }
                }
                assert forall|i: int, j: int| 0 <= i < j < after.len() implies longer[(
                #[trigger] after[i]) as int] >= longer[(#[trigger] after[j]) as int] && (longer[after[i] as int]
                    == longer[after[j] as int] ==> after[i] < after[j]) by {
                    let i_before = if i < p { i } else { i - 1 };
                    let j_before = if j < p { j } else { j - 1 };
                    if i == p {
                        assert(after[j] == placed[j_before]);
                        assert(known[placed[j_before] as int] == heights@[placed[j_before] as int]);
                        if p < placed.len() {
                            assert(known[placed[p as int] as int] == heights@[placed[p as int] as int]);
                            assert(known[placed[p as int] as int] >= known[placed[j_before] as int]);
                        }
                    } else if j == p {
                        assert(after[i] == placed[i_before]);
                        assert(known[placed[i_before] as int] == heights@[placed[i_before] as int]);
                    } else {
                        assert(after[i] == placed[i_before] && after[j] == placed[j_before]);
                        assert(known[placed[i_before] as int] == heights@[placed[i_before] as int]);
                        assert(known[placed[j_before] as int] == heights@[placed[j_before] as int]);
                    }
                }
            }
            k += 1;
        }
        assert(heights@.take(k as int) =~= heights@);
        order
    }

    /// Takes note that the pass over a graph failed with the error `e`: the
    /// playhead halts, and the error joins the queue.
    pub fn report_failure(&mut self, error_queue: &mut ErrorQueue, e: EvalError)
        ensures
            !final(self).running,
            final(error_queue)@ == reported(old(error_queue)@, e.message_text()),
    {
        self.running = false;
        let ghost before = error_queue@;
        if error_queue.errors.len() == 0 {
            let mut e2 = String::new();
            e2.append("Error during evaluation. Pausing preview. Close all error messages to resume");
            assert(e2@ =~= pause_notice());
            error_queue.errors.push(ErrorMessage { e: e2 });
        }
        error_queue.errors.push(ErrorMessage { e: e.message() });
        assert(error_queue@ =~= reported(before, e.message_text()));
    }

    /// One frame of input. The key that halts and resumes the playhead
    /// turns `running` over. A click on an item of the timeline opens it,
    /// or closes it if it was open; of several items under the pointer the
    /// last one takes the click. `items_under` tells for each item whether
    /// the pointer is on it. Returns whether a click fell on no item, so
    /// that it may move the playhead.
    pub fn handle_input(
        &mut self,
        open_item: &mut Option<usize>,
        toggle_pressed: bool,
        clicked: bool,
        items_under: &Vec<bool>,
    ) -> (missed: bool)
        ensures
            final(self).running == (old(self).running != toggle_pressed),
            missed == (clicked && last_hit(items_under@, items_under@.len()) is None),
            *final(open_item) == match last_hit(items_under@, items_under@.len()) {
                Some(i) if clicked => toggled(*old(open_item), i),
                _ => *old(open_item),
            },
    {
        if toggle_pressed {
            self.running = !self.running;
        }
        if !clicked {
            return false;
        }
        let mut i: usize = items_under.len();
        while i > 0
            invariant
                i <= items_under@.len(),
                last_hit(items_under@, items_under@.len()) == last_hit(items_under@, i as nat),
                *open_item == *old(open_item),
                self.running == (old(self).running != toggle_pressed),
                clicked,
            decreases i,
        {
            i -= 1;
            if items_under[i] {
                match *open_item {
                    Some(index) if index == i => {
                        *open_item = None;
                    },
                    _ => {
                        *open_item = Some(i);
                    },
                }
                return false;
            }
        }
        true
    }
}

} // verus!

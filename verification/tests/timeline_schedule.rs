use block_graph::evaluation::EvalError;
use block_graph::id::Id;
use block_graph::timeline::{ErrorQueue, Timeline};

fn texts(queue: &ErrorQueue) -> Vec<String> {
    queue.errors.iter().map(|m| m.e.clone()).collect()
}

#[test]
fn higher_items_come_first_and_equal_heights_stay_in_place() {
    assert_eq!(Timeline::draw_order(&vec![5, 9, 5, 1, 9]), vec![1, 4, 0, 2, 3]);
    assert_eq!(Timeline::draw_order(&vec![]), Vec::<usize>::new());
    assert_eq!(Timeline::draw_order(&vec![-3]), vec![0]);
    assert_eq!(Timeline::draw_order(&vec![1, 2, 3]), vec![2, 1, 0]);
    assert_eq!(Timeline::draw_order(&vec![i64::MIN, i64::MAX, 0]), vec![1, 2, 0]);
    assert_eq!(Timeline::draw_order(&vec![7, 7, 7]), vec![0, 1, 2]);
}

#[test]
fn draw_order_agrees_with_a_stable_descending_sort() {
    let heights: Vec<i64> = vec![3, -1, 4, 1, -5, 9, 2, 6, 5, 3, 5, 8, 9, 7, 9, 3, 2, 3];
    let mut expected: Vec<usize> = (0..heights.len()).collect();
    expected.sort_by(|a, b| heights[*b].cmp(&heights[*a]));
    assert_eq!(Timeline::draw_order(&heights), expected);
}

#[test]
fn first_failure_comes_behind_the_notice() {
    let mut timeline = Timeline::new();
    timeline.running = true;
    let mut queue = ErrorQueue::new();
    assert!(!queue.has_errors());
    timeline.report_failure(&mut queue, EvalError::MissingOutput { block: Id(1), output: Id(2) });
    assert!(!timeline.running);
    assert!(queue.has_errors());
    assert_eq!(
        texts(&queue),
        vec![
            "Error during evaluation. Pausing preview. Close all error messages to resume".to_string(),
            "My block Id(1) depends on output node Id(2), but failed to find a value from the previous output map"
                .to_string(),
        ]
    );
    timeline.report_failure(&mut queue, EvalError::MissingOutput { block: Id(3), output: Id(4) });
    assert_eq!(queue.errors.len(), 3);
    assert_eq!(
        queue.errors[2].e,
        "My block Id(3) depends on output node Id(4), but failed to find a value from the previous output map"
    );
}

#[test]
fn dismissed_errors_leave_the_queue() {
    let mut timeline = Timeline::new();
    let mut queue = ErrorQueue::new();
    timeline.report_failure(&mut queue, EvalError::MissingOutput { block: Id(1), output: Id(2) });
    queue.dismiss(0);
    assert_eq!(queue.errors.len(), 1);
    assert!(queue.errors[0].e.starts_with("My block Id(1)"));
    queue.dismiss(0);
    assert!(!queue.has_errors());
}

#[test]
fn toggle_key_turns_running_over() {
    let mut timeline = Timeline::new();
    let mut open = None;
    assert!(!timeline.handle_input(&mut open, true, false, &vec![true]));
    assert!(timeline.running);
    assert_eq!(open, None);
    assert!(!timeline.handle_input(&mut open, true, false, &vec![]));
    assert!(!timeline.running);
    assert!(!timeline.handle_input(&mut open, false, false, &vec![]));
    assert!(!timeline.running);
}

#[test]
fn click_opens_the_last_item_under_the_pointer_and_closes_an_open_one() {
    let mut timeline = Timeline::new();
    let mut open = None;
    assert!(!timeline.handle_input(&mut open, false, true, &vec![true, false, true, false]));
    assert_eq!(open, Some(2));
    assert!(!timeline.handle_input(&mut open, false, true, &vec![true, false, true, false]));
    assert_eq!(open, None);
    open = Some(0);
    assert!(!timeline.handle_input(&mut open, false, true, &vec![false, true]));
    assert_eq!(open, Some(1));
    // A click on no item may move the playhead and leaves what is open.
    assert!(timeline.handle_input(&mut open, false, true, &vec![false, false]));
    assert_eq!(open, Some(1));
}

#[test]
fn playhead_stands_still_while_errors_wait() {
    let mut timeline = Timeline::new();
    let mut queue = ErrorQueue::new();
    timeline.report_failure(&mut queue, EvalError::MissingOutput { block: Id(1), output: Id(2) });
    // Set running again while the errors are still there: the next frame halts it.
    let mut open = None;
    timeline.handle_input(&mut open, true, false, &vec![]);
    assert!(timeline.running);
    let mut schedule = Timeline::begin_frame(&vec![1, 2]);
    assert_eq!(timeline.run(&mut schedule, &mut queue, None), None);
    assert!(!timeline.running);
    assert_eq!(queue.errors.len(), 2);
    assert_eq!(schedule.position, 2);
    // With every error dismissed the playhead runs on once it is set running.
    queue.dismiss(0);
    queue.dismiss(0);
    timeline.handle_input(&mut open, true, false, &vec![]);
    let mut schedule = Timeline::begin_frame(&vec![1, 2]);
    assert_eq!(timeline.run(&mut schedule, &mut queue, None), Some(1));
    assert!(timeline.running);
    assert_eq!(timeline.run(&mut schedule, &mut queue, Some(Ok(()))), Some(0));
    assert_eq!(timeline.run(&mut schedule, &mut queue, Some(Ok(()))), None);
    assert!(timeline.running);
}

#[test]
fn a_failed_pass_ends_the_frame() {
    let mut timeline = Timeline::new();
    timeline.running = true;
    let mut queue = ErrorQueue::new();
    let mut schedule = Timeline::begin_frame(&vec![5, 9, 7]);
    assert_eq!(timeline.run(&mut schedule, &mut queue, None), Some(1));
    let failed = Err(EvalError::MissingOutput { block: Id(4), output: Id(6) });
    assert_eq!(timeline.run(&mut schedule, &mut queue, Some(failed)), None);
    assert!(!timeline.running);
    assert_eq!(queue.errors.len(), 2);
    assert_eq!(schedule.position, 3);
}

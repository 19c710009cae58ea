use wisp::boot::{driver_step, fixed_exit_code, yield_kind, DriverStep, Parked, Resume, YieldKind};
use wisp::clicks::next_click_count;

#[test]
fn wait_sleep_and_exit_yields_are_parsed() {
    assert_eq!(yield_kind(true, Some("wait")), YieldKind::Wait);
    assert_eq!(yield_kind(true, Some("sleep")), YieldKind::Sleep);
    assert_eq!(yield_kind(true, Some("exit")), YieldKind::Exit);
    // these carry their own values
    assert_eq!(fixed_exit_code(YieldKind::Wait), None);
    assert_eq!(fixed_exit_code(YieldKind::Exit), None);
}

#[test]
fn a_finished_coroutine_exits_cleanly() {
    assert_eq!(yield_kind(false, None), YieldKind::Finished);
    assert_eq!(yield_kind(false, Some("wait")), YieldKind::Finished);
    assert_eq!(fixed_exit_code(yield_kind(false, None)), Some(0));
}

#[test]
fn errors_and_garbage_yields_exit_with_failure() {
    // a yield of an unknown word, or of no word at all (a number)
    assert_eq!(fixed_exit_code(yield_kind(true, Some("bogus"))), Some(1));
    assert_eq!(fixed_exit_code(yield_kind(true, None)), Some(1));
    assert_ne!(Resume::Start, Resume::EventAvailable(false));
}

#[test]
fn repeat_presses_cycle_through_caret_word_line() {
    let mut clicks = 0;
    let mut counts = Vec::new();
    for i in 0..7 {
        clicks = next_click_count(clicks, i > 0);
        counts.push(clicks);
    }
    assert_eq!(counts, [1, 2, 3, 1, 2, 3, 1]);
    assert_eq!(next_click_count(2, false), 1);
}

#[test]
fn a_waiting_editor_wakes_for_events_or_its_deadline() {
    assert_eq!(driver_step(Parked::Wait, true, false), DriverStep::Resume(Resume::EventAvailable(true)));
    assert_eq!(driver_step(Parked::Wait, false, true), DriverStep::Resume(Resume::EventAvailable(false)));
    assert_eq!(driver_step(Parked::Wait, false, false), DriverStep::WaitForDeadline);
    assert_eq!(driver_step(Parked::Sleep, true, false), DriverStep::WaitForDeadline);
    assert_eq!(driver_step(Parked::Sleep, false, true), DriverStep::Resume(Resume::Start));
    assert_eq!(driver_step(Parked::Start, false, false), DriverStep::Resume(Resume::Start));
    assert_eq!(driver_step(Parked::Done(3), true, true), DriverStep::Exit(3));
}

use ir_remote::capture::{observe, CaptureError, Change, Step};
use ir_remote::duration::Duration;
use ir_remote::ir_signal::Event;

fn change(is_on: bool, nanos: u64) -> Change {
    Change { is_on, time: Duration::from_nanos(nanos) }
}

#[test]
fn first_change_starts_the_count() {
    let first = change(true, 1_000);
    assert_eq!(observe(None, first), Ok(Step { previous: Some(first), event: None }));
}

#[test]
fn change_to_other_level_ends_a_pulse() {
    let before = change(true, 1_000);
    let after = change(false, 628_288);
    let pulse = Event { is_on: true, duration: Duration::from_nanos(627_288) };
    assert_eq!(
        observe(Some(before), after),
        Ok(Step { previous: Some(after), event: Some(pulse) })
    );
}

#[test]
fn change_to_same_level_is_dropped() {
    let before = change(false, 1_000);
    let again = change(false, 2_000);
    assert_eq!(observe(Some(before), again), Ok(Step { previous: Some(before), event: None }));
}

#[test]
fn change_at_the_same_time_ends_an_empty_pulse() {
    let before = change(false, 5);
    let after = change(true, 5);
    let pulse = Event { is_on: false, duration: Duration::from_nanos(0) };
    assert_eq!(
        observe(Some(before), after),
        Ok(Step { previous: Some(after), event: Some(pulse) })
    );
}

#[test]
fn earlier_change_is_refused() {
    let before = change(true, 2_000);
    let after = change(false, 1_999);
    assert_eq!(observe(Some(before), after), Err(CaptureError::TimeWentBackwards));
}

#[test]
fn earlier_change_to_same_level_is_dropped() {
    let before = change(true, 2_000);
    let again = change(true, 1_000);
    assert_eq!(observe(Some(before), again), Ok(Step { previous: Some(before), event: None }));
}

#[test]
fn captured_pulses_alternate() {
    let changes = [
        change(true, 0),
        change(false, 10),
        change(false, 12),
        change(true, 30),
        change(true, 31),
        change(true, 32),
        change(false, 70),
    ];
    let mut previous = None;
    let mut events = vec![];
    for next in changes {
        let step = observe(previous, next).unwrap();
        events.extend(step.event);
        previous = step.previous;
    }
    let expected = vec![
        Event { is_on: true, duration: Duration::from_nanos(10) },
        Event { is_on: false, duration: Duration::from_nanos(20) },
        Event { is_on: true, duration: Duration::from_nanos(40) },
    ];
    assert_eq!(events, expected);
    assert_eq!(previous, Some(change(false, 70)));
}

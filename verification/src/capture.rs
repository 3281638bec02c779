//! Turning the changes of level that a receiver reports into pulses.
//!
//! The receiver reports each change of the line with the time at which it
//! was seen. A pulse lasts from one change to the next change to the other
//! level; a report of the level that the line already has is dropped.

use crate::duration::Duration;
use crate::ir_signal::Event;
use vstd::prelude::*;

verus! {

/// A change of level: the line is on or off from `time` on, `time` being
/// counted from an origin that all changes share.
#[derive(Debug, Clone, Copy, PartialEq, Eq, Structural)]
pub struct Change {
    pub is_on: bool,
    pub time: Duration,
}

/// What follows from a change: the change from which the next pulse is
/// counted, and the pulse that has ended, if one has.
#[derive(Debug, Clone, Copy, PartialEq, Eq)]
pub struct Step {
    pub previous: Option<Change>,
    pub event: Option<Event>,
}

/// Why a change cannot be taken.
#[derive(Debug, Clone, Copy, PartialEq, Eq, Structural)]
pub enum CaptureError {
    /// The change is earlier than the one before it.
    TimeWentBackwards,
}

/// What follows from `change` after `previous`: the first change only
/// starts the count; a change to the same level is dropped and the count
/// goes on; a change to the other level ends a pulse of the previous level
/// that has lasted from the previous change to this one.
pub open spec fn observed(previous: Option<Change>, change: Change) -> Result<Step, CaptureError> {
    match previous {
        None => Ok(Step { previous: Some(change), event: None }),
        Some(before) => if before.is_on == change.is_on {
            Ok(Step { previous: Some(before), event: None })
        } else if change.time.nanos < before.time.nanos {
            Err(CaptureError::TimeWentBackwards)
        } else {
            Ok(
                Step {
                    previous: Some(change),
                    event: Some(
                        Event {
                            is_on: before.is_on,
                            duration: Duration {
                                nanos: (change.time.nanos - before.time.nanos) as u64,
                            },
                        },
                    ),
                },
            )
        },
    }
}

/// Takes the next change that the receiver reports.
pub fn observe(previous: Option<Change>, change: Change) -> (result: Result<Step, CaptureError>)
    ensures
        result == observed(previous, change),
{
    match previous {
        None => Ok(Step { previous: Some(change), event: None }),
        Some(before) => {
            if before.is_on == change.is_on {
                return Ok(Step { previous: Some(before), event: None });
            }
            let begin = before.time.as_nanos();
            let end = change.time.as_nanos();
            if end < begin {
                return Err(CaptureError::TimeWentBackwards);
            }
            let event = Event { is_on: before.is_on, duration: Duration::from_nanos(end - begin) };
            Ok(Step { previous: Some(change), event: Some(event) })
        },
    }
}

/// The pulses that a run of changes makes, after `previous`: one pulse for
/// each change of level but the first.
pub open spec fn observed_events(previous: Option<Change>, changes: Seq<Change>) -> Result<
    Seq<Event>,
    CaptureError,
>
    decreases changes.len(),
{
    if changes.len() == 0 {
        Ok(Seq::empty())
    } else {
        match observed(previous, changes[0]) {
            Err(error) => Err(error),
            Ok(step) => match observed_events(step.previous, changes.drop_first()) {
                Err(error) => Err(error),
                Ok(events) => Ok(
                    match step.event {
                        Some(event) => seq![event] + events,
                        None => events,
                    },
                ),
            },
        }
    }
}

/// The pulses that come out of a capture alternate between on and off: no
/// two pulses in a row have the same level.
pub proof fn lemma_observed_events_alternate(previous: Option<Change>, changes: Seq<Change>)
    requires
        observed_events(previous, changes) is Ok,
    ensures
        ({
            let events = observed_events(previous, changes)->Ok_0;
            &&& forall|i: int|
                0 <= i < events.len() - 1 ==> #[trigger] events[i].is_on != events[i + 1].is_on
            &&& previous is Some && events.len() > 0 ==> events[0].is_on == previous->Some_0.is_on
        }),
    decreases changes.len(),
{
    if changes.len() > 0 {
        let step = observed(previous, changes[0])->Ok_0;
        let rest = observed_events(step.previous, changes.drop_first())->Ok_0;
        lemma_observed_events_alternate(step.previous, changes.drop_first());
        let events = observed_events(previous, changes)->Ok_0;
        if let Some(event) = step.event {
            assert(events == seq![event] + rest);
            assert forall|i: int| 0 <= i < events.len() - 1 implies #[trigger] events[i].is_on
                != events[i + 1].is_on by {
                if i > 0 {
                    assert(events[i] == rest[i - 1]);
                    assert(events[i + 1] == rest[i]);
                } else {
                    assert(events[1] == rest[0]);
                }
            }
        }
    }
}

} // verus!
